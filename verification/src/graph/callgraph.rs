//! The graph of a function: the calls it takes part in on either side of a
//! change, and the module that declares it.

use vstd::prelude::*;
use vstd::view::View as _;

use crate::analysis::saturated;
use crate::collections::TextMap;
use crate::graph::assembly::{
    function_facts, holds_relation, lemma_concat_contains, membership, module_facts, module_node, push_all, status_for, Request, Revisions,
};
use crate::graph::calls::{all_missed, all_seen, seen_views, Resolver, Scene, Seen, SeenView, Side};
use crate::graph::reach::{follows, hops_along, is_reach, lemma_reach_unique, walk_along, Reached};
use crate::graph::{
    edge_rank, function_identity, in_base, in_target, module_identity, resolution_confidence, BuilderView, Direction, Edge, EdgeStatus, EdgeView, Evidence, GraphBuilder,
    Node, NodeView, Relation, Resolution,
};
use crate::imports::links::{LinkTable, PairTable};
use crate::query::rows::{function_id, identity};
use crate::result::{function_views, AnalysisResult, FileResult, FileView};
use crate::text::{texts, Rank};

verus! {

/// One call relationship: the sides it was seen on, the earliest line each side
/// has it on, the file it is written in, and how the callee was resolved.
#[verifier::ext_equal]
pub struct EntryView {
    pub in_base: bool,
    pub in_target: bool,
    pub base_line: Option<u32>,
    pub target_line: Option<u32>,
    pub site: Seq<char>,
    pub resolution: Resolution,
}

/// The earlier of a line already known and another.
pub open spec fn earlier(known: Option<u32>, line: u32) -> Option<u32> {
    match known {
        Some(other) => Some(
            if other < line {
                other
            } else {
                line
            },
        ),
        None => Some(line),
    }
}

/// A relationship with one more call of it. Of two resolutions the less
/// confident is kept: an edge is only as trustworthy as the weaker of the
/// claims behind it.
pub open spec fn entry_with(known: Option<EntryView>, call: SeenView) -> EntryView {
    let entry = match known {
        Some(entry) => entry,
        None => EntryView {
            in_base: false,
            in_target: false,
            base_line: None,
            target_line: None,
            site: call.site,
            resolution: call.resolution,
        },
    };
    EntryView {
        in_base: entry.in_base || call.side == Side::Base,
        in_target: entry.in_target || call.side == Side::Target,
        base_line: if call.side == Side::Base {
            earlier(entry.base_line, call.line)
        } else {
            entry.base_line
        },
        target_line: if call.side == Side::Target {
            earlier(entry.target_line, call.line)
        } else {
            entry.target_line
        },
        resolution: if resolution_confidence(call.resolution) < resolution_confidence(entry.resolution) {
            call.resolution
        } else {
            entry.resolution
        },
        ..entry
    }
}

/// The relationship that calls make between two functions. A guess and a proof
/// are two different statements and never merge.
pub open spec fn entry_of(seen: Seq<SeenView>, from: Seq<char>, to: Seq<char>, guessed: bool) -> Option<EntryView>
    decreases seen.len(),
{
    if seen.len() == 0 {
        None
    } else {
        let known = entry_of(seen.drop_last(), from, to, guessed);
        let call = seen.last();
        if call.from == from && call.to == to && call.guessed == guessed {
            Some(entry_with(known, call))
        } else {
            known
        }
    }
}

/// The relation that a call is reported under.
pub open spec fn relation_of(guessed: bool) -> Relation {
    if guessed {
        Relation::PossibleCall
    } else {
        Relation::Calls
    }
}

struct CallEntry {
    in_base: bool,
    in_target: bool,
    base_line: Option<u32>,
    target_line: Option<u32>,
    site: String,
    resolution: Resolution,
}

impl vstd::view::View for CallEntry {
    type V = EntryView;

    closed spec fn view(&self) -> EntryView {
        EntryView {
            in_base: self.in_base,
            in_target: self.in_target,
            base_line: self.base_line,
            target_line: self.target_line,
            site: self.site@,
            resolution: self.resolution,
        }
    }
}

spec fn entry_at(table: Map<(Seq<char>, Seq<char>), CallEntry>, from: Seq<char>, to: Seq<char>) -> Option<EntryView> {
    if table.contains_key((from, to)) {
        Some(table[(from, to)]@)
    } else {
        None
    }
}

fn earliest(known: Option<u32>, line: u32) -> (r: Option<u32>)
    ensures
        r == earlier(known, line),
{
    match known {
        Some(other) => Some(
            if other < line {
                other
            } else {
                line
            },
        ),
        None => Some(line),
    }
}

/// Record one more call of a relationship.
fn note(table: &mut PairTable<CallEntry>, call: &Seen)
    ensures
        forall|from: Seq<char>, to: Seq<char>| #[trigger]
            entry_at(final(table)@, from, to) == if from == call@.from && to == call@.to {
                Some(entry_with(entry_at(old(table)@, from, to), call@))
            } else {
                entry_at(old(table)@, from, to)
            },
{
    let ghost before = entry_at(table@, call@.from, call@.to);
    let entry = match table.get(call.from.as_str(), call.to.as_str()) {
        Some(known) => CallEntry {
            in_base: known.in_base,
            in_target: known.in_target,
            base_line: known.base_line,
            target_line: known.target_line,
            site: known.site.clone(),
            resolution: known.resolution,
        },
        None => CallEntry {
            in_base: false,
            in_target: false,
            base_line: None,
            target_line: None,
            site: call.site.clone(),
            resolution: call.resolution,
        },
    };
    let mut entry = entry;
    match call.side {
        Side::Base => {
            entry.in_base = true;
            entry.base_line = earliest(entry.base_line, call.line);
        },
        Side::Target => {
            entry.in_target = true;
            entry.target_line = earliest(entry.target_line, call.line);
        },
    }
    if call.resolution.confidence() < entry.resolution.confidence() {
        entry.resolution = call.resolution;
    }
    assert(entry@ =~= entry_with(before, call@));
    table.insert(call.from.as_str(), call.to.as_str(), entry);
}

/// The relationships of a function graph: those resolved exactly, and those
/// guessed at.
struct CallEdges {
    exact: PairTable<CallEntry>,
    guesses: PairTable<CallEntry>,
}

impl CallEdges {
    spec fn hold(self, seen: Seq<SeenView>) -> bool {
        &&& forall|from: Seq<char>, to: Seq<char>| #[trigger] entry_at(self.exact@, from, to) == entry_of(seen, from, to, false)
        &&& forall|from: Seq<char>, to: Seq<char>| #[trigger] entry_at(self.guesses@, from, to) == entry_of(seen, from, to, true)
    }

    fn of(seen: &Vec<Seen>) -> (r: CallEdges)
        ensures
            r.hold(seen_views(seen@)),
    {
        let ghost views = seen_views(seen@);
        let mut exact: PairTable<CallEntry> = PairTable::new();
        let mut guesses: PairTable<CallEntry> = PairTable::new();
        let mut i: usize = 0;
        while i < seen.len()
            invariant
                i <= seen.len(),
                views == seen_views(seen@),
                forall|from: Seq<char>, to: Seq<char>| #[trigger]
                    entry_at(exact@, from, to) == entry_of(views.take(i as int), from, to, false),
                forall|from: Seq<char>, to: Seq<char>| #[trigger]
                    entry_at(guesses@, from, to) == entry_of(views.take(i as int), from, to, true),
            decreases seen.len() - i,
        {
            let call = &seen[i];
            let ghost exact_before = exact@;
            let ghost guesses_before = guesses@;
            assert(views.take(i + 1).drop_last() =~= views.take(i as int));
            assert(views.take(i + 1).last() == call@);
            if call.guessed {
                note(&mut guesses, call);
            } else {
                note(&mut exact, call);
            }
            proof {
                assert forall|from: Seq<char>, to: Seq<char>| #[trigger] entry_at(exact@, from, to) == entry_of(
                    views.take(i + 1),
                    from,
                    to,
                    false,
                ) by {
                    assert(entry_at(exact_before, from, to) == entry_of(views.take(i as int), from, to, false));
                }
                assert forall|from: Seq<char>, to: Seq<char>| #[trigger] entry_at(guesses@, from, to) == entry_of(
                    views.take(i + 1),
                    from,
                    to,
                    true,
                ) by {
                    assert(entry_at(guesses_before, from, to) == entry_of(views.take(i as int), from, to, true));
                }
            }
            i = i + 1;
        }
        assert(views.take(i as int) =~= views);
        CallEdges { exact, guesses }
    }

    fn get(&self, call: &Seen) -> (r: Option<&CallEntry>)
        ensures
            (match r {
                Some(entry) => Some(entry@),
                None => None,
            }) == entry_at(
                if call@.guessed {
                    self.guesses@
                } else {
                    self.exact@
                },
                call@.from,
                call@.to,
            ),
    {
        if call.guessed {
            self.guesses.get(call.from.as_str(), call.to.as_str())
        } else {
            self.exact.get(call.from.as_str(), call.to.as_str())
        }
    }
}

/// Whether a call is of a relation that a request follows.
pub open spec fn followed(relations: Seq<Relation>, call: SeenView) -> bool {
    relations.contains(relation_of(call.guessed))
}

/// Whether a call that a request follows leads from one function to another.
pub open spec fn leads_to(seen: Seq<SeenView>, relations: Seq<Relation>, from: Seq<char>, to: Seq<char>) -> bool {
    exists|k: int| 0 <= k < seen.len() && followed(relations, #[trigger] seen[k]) && seen[k].from == from && seen[k].to == to
}

/// One step of the walk over both revisions' calls: upstream to what calls a
/// function, downstream to what it calls.
pub open spec fn call_way(seen: Seq<SeenView>, relations: Seq<Relation>) -> spec_fn(Direction, Seq<char>, Seq<char>) -> bool {
    |d: Direction, a: Seq<char>, b: Seq<char>|
        (follows(d, Direction::Upstream) && leads_to(seen, relations, b, a)) || (follows(d, Direction::Downstream) && leads_to(
            seen,
            relations,
            a,
            b,
        ))
}

fn is_followed(relations: &Vec<Relation>, call: &Seen) -> (r: bool)
    ensures
        r == followed(relations@, call@),
{
    if call.guessed {
        holds_relation(relations, Relation::PossibleCall)
    } else {
        holds_relation(relations, Relation::Calls)
    }
}

/// The call edges indexed by direction, for the walk.
///
/// Only the relations the request follows are indexed, so a walk that may not
/// follow guesses does not reach a function through one.
fn call_adjacency(seen: &Vec<Seen>, relations: &Vec<Relation>) -> (r: LinkTable)
    ensures
        forall|from: Seq<char>, to: Seq<char>| #[trigger]
            r.links().contains((from, to)) <==> leads_to(seen_views(seen@), relations@, from, to),
{
    let ghost views = seen_views(seen@);
    let mut table = LinkTable::new();
    let mut i: usize = 0;
    while i < seen.len()
        invariant
            i <= seen.len(),
            views == seen_views(seen@),
            forall|from: Seq<char>, to: Seq<char>| #[trigger]
                table.links().contains((from, to)) <==> exists|k: int|
                    0 <= k < i && followed(relations@, #[trigger] views[k]) && views[k].from == from && views[k].to == to,
        decreases seen.len() - i,
    {
        let call = &seen[i];
        let ghost before = table.links();
        assert(views[i as int] == call@);
        if is_followed(relations, call) {
            table.link(call.from.as_str(), call.to.as_str(), None);
        }
        proof {
            assert forall|from: Seq<char>, to: Seq<char>| #[trigger] table.links().contains((from, to)) <==> exists|k: int|
                0 <= k < i + 1 && followed(relations@, #[trigger] views[k]) && views[k].from == from && views[k].to == to by {
                if before.contains((from, to)) {
                    let k = choose|k: int| 0 <= k < i && followed(relations@, #[trigger] views[k]) && views[k].from == from && views[k].to == to;
                    assert(followed(relations@, views[k]));
                }
                if table.links().contains((from, to)) && !before.contains((from, to)) {
                    assert(followed(relations@, views[i as int]));
                }
            }
        }
        i = i + 1;
    }
    table
}

/// One hop from a function over the call edges.
///
/// Both revisions' edges are in the table, so a call only the base revision
/// wrote is still a hop the walk can take.
fn call_neighbors(table: &LinkTable, id: &str, direction: Direction) -> (r: Vec<String>)
    ensures
        forall|b: Seq<char>| #[trigger]
            texts(r@).contains(b) <==> (follows(direction, Direction::Upstream) && table.links().contains((b, id@))) || (follows(
                direction,
                Direction::Downstream,
            ) && table.links().contains((id@, b))),
{
    let mut out: Vec<String> = Vec::new();
    let incoming = table.to_name(id);
    let outgoing = table.from_name(id);
    let ghost mut up = Seq::<Seq<char>>::empty();
    let ghost mut down = Seq::<Seq<char>>::empty();
    if direction.follows_downstream() {
        push_all(&mut out, outgoing);
        proof {
            down = outgoing.keys();
        }
    }
    assert(texts(out@) =~= down);
    if direction.follows_upstream() {
        push_all(&mut out, incoming);
        proof {
            up = incoming.keys();
        }
    }
    assert(texts(out@) =~= down + up);
    proof {
        assert forall|b: Seq<char>| #[trigger] texts(out@).contains(b) <==> (follows(direction, Direction::Upstream) && table.links().contains(
            (b, id@),
        )) || (follows(direction, Direction::Downstream) && table.links().contains((id@, b))) by {
            lemma_concat_contains(down, up, b);
            if follows(direction, Direction::Upstream) {
                assert(incoming.keys().to_set().contains(b) <==> table.links().contains((b, id@)));
            }
            if follows(direction, Direction::Downstream) {
                assert(outgoing.keys().to_set().contains(b) <==> table.links().contains((id@, b)));
            }
        }
    }
    out
}

/// The functions that a walk reaches from a function.
pub open spec fn reached_functions(seen: Seq<SeenView>, relations: Seq<Relation>, root: Seq<char>, direction: Direction, depth: u32) -> Map<
    Seq<char>,
    u32,
> {
    choose|reached: Map<Seq<char>, u32>| #[trigger]
        is_reach(reached, seq![root].to_set(), hops_along(call_way(seen, relations), direction), depth as nat)
}

/// Walk outward from a function along the calls that a request follows.
fn walk_calls(seen: &Vec<Seen>, relations: &Vec<Relation>, root: &str, direction: Direction, depth: u32) -> (r: Reached)
    ensures
        r@ == reached_functions(seen_views(seen@), relations@, root@, direction, depth),
        r@.contains_key(root@),
{
    let ghost views = seen_views(seen@);
    let ghost way = call_way(views, relations@);
    let table = call_adjacency(seen, relations);
    let ghost links = table.links();
    let ghost along = |d: Direction, a: Seq<char>, b: Seq<char>|
        (follows(d, Direction::Upstream) && links.contains((b, a))) || (follows(d, Direction::Downstream) && links.contains((a, b)));
    assert(along =~= way) by {
        assert forall|d: Direction, a: Seq<char>, b: Seq<char>| #[trigger] along(d, a, b) == way(d, a, b) by {
            assert(links.contains((b, a)) <==> leads_to(views, relations@, b, a));
            assert(links.contains((a, b)) <==> leads_to(views, relations@, a, b));
        }
    }
    let neighbors = |id: &str, d: Direction| -> (out: Vec<String>)
        ensures
            forall|b: Seq<char>| #[trigger] texts(out@).contains(b) <==> along(d, id@, b),
    {
        call_neighbors(&table, id, d)
    };
    let mut roots: Vec<String> = Vec::new();
    roots.push(root.to_owned());
    assert(texts(roots@) =~= seq![root@]);
    let reached = walk_along(&roots, direction, depth, neighbors, Ghost(way));
    proof {
        let hop = hops_along(way, direction);
        let start = seq![root@].to_set();
        let reach = reached_functions(views, relations@, root@, direction, depth);
        assert(is_reach(reached@, start, hop, depth as nat));
        assert(is_reach(reach, start, hop, depth as nat));
        lemma_reach_unique(reached@, reach, start, hop, depth as nat);
        assert(seq![root@].contains(seq![root@][0]));
        assert(start.contains(root@));
        crate::graph::reach::lemma_within_grows(start, hop, 0, depth as nat);
        assert(crate::graph::reach::within(start, hop, depth as nat).contains(root@));
    }
    reached
}

/// The last of the functions before a place whose node has an identity.
pub open spec fn last_identified(file: FileView, id: Seq<char>, n: int) -> Option<int>
    decreases n,
{
    if n <= 0 || n > file.functions.len() {
        None
    } else if function_identity(identity(file, file.functions[n - 1])) == id {
        Some(n - 1)
    } else {
        last_identified(file, id, n - 1)
    }
}

/// The place of the function of a file whose node has an identity.
pub open spec fn local_place(file: FileView, id: Seq<char>) -> Option<int> {
    last_identified(file, id, file.functions.len() as int)
}

/// The node of an identity that the first of some calls brings in.
pub open spec fn brought_in(seen: Seq<SeenView>, id: Seq<char>) -> Option<NodeView>
    decreases seen.len(),
{
    if seen.len() == 0 {
        None
    } else {
        match brought_in(seen.drop_last(), id) {
            Some(node) => Some(node),
            None => match seen.last().place {
                Some(node) => if node.id == id {
                    Some(node)
                } else {
                    None
                },
                None => None,
            },
        }
    }
}

/// The node of an identity: the root's own file names its functions, and calls
/// bring in the others.
pub open spec fn known_node(scene: Scene, seen: Seq<SeenView>, id: Seq<char>) -> Option<NodeView> {
    match local_place(scene.file, id) {
        Some(i) => Some(function_facts(scene.file, scene.path, scene.file.functions[i])),
        None => brought_in(seen, id),
    }
}

/// The nodes of the functions that a walk reached.
pub open spec fn function_nodes(scene: Scene, seen: Seq<SeenView>, reached: Map<Seq<char>, u32>) -> Map<Seq<char>, NodeView> {
    Map::new(
        |id: Seq<char>| reached.contains_key(id) && known_node(scene, seen, id) is Some,
        |id: Seq<char>| NodeView { depth: reached[id], ..known_node(scene, seen, id)->0 },
    )
}

proof fn lemma_known_node(scene: Scene, seen: Seq<SeenView>, id: Seq<char>)
    ensures
        match known_node(scene, seen, id) {
            Some(node) => node.id == id,
            None => true,
        },
{
    lemma_last_identified(scene.file, id, scene.file.functions.len() as int);
    lemma_brought_in(seen, id);
}

proof fn lemma_last_identified(file: FileView, id: Seq<char>, n: int)
    requires
        n <= file.functions.len(),
    ensures
        match last_identified(file, id, n) {
            Some(i) => 0 <= i < n && function_identity(identity(file, file.functions[i])) == id,
            None => forall|k: int| 0 <= k < n ==> function_identity(identity(file, #[trigger] file.functions[k])) != id,
        },
    decreases n,
{
    if n > 0 {
        lemma_last_identified(file, id, n - 1);
    }
}

proof fn lemma_brought_in(seen: Seq<SeenView>, id: Seq<char>)
    ensures
        match brought_in(seen, id) {
            Some(node) => node.id == id,
            None => true,
        },
    decreases seen.len(),
{
    if seen.len() > 0 {
        lemma_brought_in(seen.drop_last(), id);
    }
}

/// The places of a file's functions, by the identities of their nodes.
fn local_table(file: &FileResult) -> (r: TextMap<usize>)
    ensures
        forall|id: Seq<char>|
            local_place(file@, id) == if #[trigger] r@.contains_key(id) {
                Some(r@[id] as int)
            } else {
                None
            },
{
    let ghost view = file@;
    let mut table: TextMap<usize> = TextMap::new();
    let mut i: usize = 0;
    while i < file.functions.len()
        invariant
            i <= file.functions.len(),
            view == file@,
            view.functions == function_views(file.functions@),
            forall|id: Seq<char>|
                last_identified(view, id, i as int) == if #[trigger] table@.contains_key(id) {
                    Some(table@[id] as int)
                } else {
                    None
                },
        decreases file.functions.len() - i,
    {
        assert(view.functions[i as int] == file.functions@[i as int]@);
        let id = function_id(file, &file.functions[i]);
        table.insert(Node::function_id(id.as_str()), i);
        i = i + 1;
    }
    table
}

/// Whether a table holds the first of some calls that brings in each node.
spec fn brings(table: Map<Seq<char>, usize>, seen: Seq<SeenView>, n: int) -> bool {
    forall|id: Seq<char>|
        if #[trigger] table.contains_key(id) {
            table[id] < n && brought_in(seen.take(n), id) is Some && seen[table[id] as int].place == brought_in(seen.take(n), id)
        } else {
            brought_in(seen.take(n), id) is None
        }
}

fn brought_table(seen: &Vec<Seen>) -> (r: TextMap<usize>)
    ensures
        brings(r@, seen_views(seen@), seen@.len() as int),
{
    let ghost views = seen_views(seen@);
    let mut table: TextMap<usize> = TextMap::new();
    let mut i: usize = 0;
    while i < seen.len()
        invariant
            i <= seen.len(),
            views == seen_views(seen@),
            brings(table@, views, i as int),
        decreases seen.len() - i,
    {
        let call = &seen[i];
        let ghost before = table@;
        assert(views.take(i + 1).drop_last() =~= views.take(i as int));
        assert(views.take(i + 1).last() == call@);
        assert(views[i as int] == call@);
        if let Some(node) = &call.place {
            if !table.contains_key(node.id.as_str()) {
                table.insert(node.id.clone(), i);
            }
        }
        proof {
            assert forall|id: Seq<char>| if #[trigger] table@.contains_key(id) {
                table@[id] < i + 1 && brought_in(views.take(i + 1), id) is Some && views[table@[id] as int].place == brought_in(views.take(i + 1), id)
            } else {
                brought_in(views.take(i + 1), id) is None
            } by {
                assert(if before.contains_key(id) {
                    before[id] < i && brought_in(views.take(i as int), id) is Some && views[before[id] as int].place == brought_in(
                        views.take(i as int),
                        id,
                    )
                } else {
                    brought_in(views.take(i as int), id) is None
                });
            }
        }
        i = i + 1;
    }
    table
}

/// Add the node of every function that a walk reached.
fn add_function_nodes(builder: &mut GraphBuilder, resolver: &Resolver, local: &TextMap<usize>, seen: &Vec<Seen>, reached: &Reached)
    requires
        old(builder).valid(),
        old(builder)@.nodes == Map::<Seq<char>, NodeView>::empty(),
        forall|id: Seq<char>|
            local_place(resolver.scene().file, id) == if #[trigger] local@.contains_key(id) {
                Some(local@[id] as int)
            } else {
                None
            },
    ensures
        final(builder).valid(),
        final(builder)@ == (BuilderView { nodes: function_nodes(resolver.scene(), seen_views(seen@), reached@), ..old(builder)@ }),
{
    let ghost scene = resolver.scene();
    let ghost views = seen_views(seen@);
    let ghost given = builder@;
    let ghost wanted = function_nodes(scene, views, reached@);
    let brought = brought_table(seen);
    assert(views.take(seen@.len() as int) =~= views);
    let n: usize = reached.len();
    let ghost keys = reached.keys();
    let mut i: usize = 0;
    while i < n
        invariant
            n == keys.len(),
            keys == reached.keys(),
            reached.ordered(),
            i <= n,
            scene == resolver.scene(),
            views == seen_views(seen@),
            views.take(seen@.len() as int) == views,
            brings(brought@, views, seen@.len() as int),
            forall|id: Seq<char>|
                local_place(scene.file, id) == if #[trigger] local@.contains_key(id) {
                    Some(local@[id] as int)
                } else {
                    None
                },
            wanted == function_nodes(scene, views, reached@),
            builder.valid(),
            builder@.edges == given.edges,
            builder@.roots == given.roots,
            forall|id: Seq<char>| #[trigger] builder@.nodes.contains_key(id) <==> wanted.contains_key(id) && keys.take(i as int).contains(id),
            forall|id: Seq<char>| #[trigger] builder@.nodes.contains_key(id) ==> builder@.nodes[id] == wanted[id],
        decreases n - i,
    {
        let id = reached.key_at(i);
        let depth: u32 = *reached.value_at(i);
        let ghost before = builder@;
        let ghost known = known_node(scene, views, id@);
        proof {
            assert(keys.take(i + 1) =~= keys.take(i as int).push(id@));
            crate::collections::lemma_push_contains(keys.take(i as int), id@);
            if keys.take(i as int).contains(id@) {
                let k = choose|k: int| 0 <= k < i && keys.take(i as int)[k] == id@;
                crate::collections::lemma_ascending_unique(keys, k, i as int);
            }
            lemma_known_node(scene, views, id@);
            lemma_last_identified(scene.file, id@, scene.file.functions.len() as int);
        }
        let node: Option<Node> = match local.get(id) {
            Some(at) => Some(resolver.own_node(*at)),
            None => match brought.get(id) {
                Some(k) => {
                    assert(views[*k as int] == seen@[*k as int]@);
                    match &seen[*k].place {
                        Some(node) => Some(node.copy()),
                        None => None,
                    }
                },
                None => None,
            },
        };
        if let Some(node) = node {
            assert(known == Some(node@));
            let mut node = node;
            node.depth = depth;
            assert(node@ =~= wanted[id@]);
            builder.add_node(node);
            assert(builder@.nodes == before.nodes.insert(id@, wanted[id@]));
        } else {
            assert(known is None);
        }
        i = i + 1;
    }
    proof {
        assert(keys.take(n as int) =~= keys);
        assert forall|id: Seq<char>| wanted.contains_key(id) implies builder@.nodes.contains_key(id) by {
            assert(reached@.contains_key(id));
            assert(keys.contains(id));
        }
        assert(builder@.nodes =~= wanted);
    }
}

/// The edge of a relationship between two functions.
pub open spec fn call_edge(seen: Seq<SeenView>, from: Seq<char>, to: Seq<char>, guessed: bool) -> EdgeView {
    let entry = entry_of(seen, from, to, guessed)->0;
    let status = membership(entry.in_base, entry.in_target);
    let line = if status == EdgeStatus::Removed {
        entry.base_line
    } else {
        entry.target_line
    };
    EdgeView {
        from,
        to,
        relation: relation_of(guessed),
        status,
        resolution: entry.resolution,
        evidence: match line {
            Some(line) => Some((entry.site, line)),
            None => None,
        },
    }
}

/// Whether an edge is that of calls, of a relation that the request follows,
/// between two reached functions.
pub open spec fn is_call_edge(seen: Seq<SeenView>, relations: Seq<Relation>, reached: Map<Seq<char>, u32>, e: EdgeView) -> bool {
    exists|k: int|
        0 <= k < seen.len() && followed(relations, #[trigger] seen[k]) && reached.contains_key(seen[k].from) && reached.contains_key(seen[k].to) && e
            == call_edge(seen, seen[k].from, seen[k].to, seen[k].guessed)
}

/// The edge from the root's module to a function that it declares. It has no
/// evidence: the function's node already carries its position.
pub open spec fn contains_edge(scene: Scene, id: Seq<char>) -> EdgeView {
    let function = scene.file.functions[local_place(scene.file, id)->0];
    EdgeView {
        from: module_identity(scene.path),
        to: id,
        relation: Relation::Contains,
        status: membership(function.base_range is Some, function.target_range is Some),
        resolution: Resolution::Declaration,
        evidence: None,
    }
}

/// Whether an identity is that of a function of the root's module that either
/// side declares.
pub open spec fn is_contained(scene: Scene, id: Seq<char>) -> bool {
    match local_place(scene.file, id) {
        Some(i) => scene.file.functions[i].base_range is Some || scene.file.functions[i].target_range is Some,
        None => false,
    }
}

/// Whether an edge attaches the root's module to a reached function of its own.
pub open spec fn is_contains_edge(scene: Scene, reached: Map<Seq<char>, u32>, e: EdgeView) -> bool {
    exists|id: Seq<char>| reached.contains_key(id) && is_contained(scene, id) && e == #[trigger] contains_edge(scene, id)
}

/// Whether an edge is of one of the kinds that a function graph has.
spec fn is_function_edge(scene: Scene, seen: Seq<SeenView>, e: EdgeView) -> bool {
    ||| exists|from: Seq<char>, to: Seq<char>, guessed: bool| e == #[trigger] call_edge(seen, from, to, guessed)
    ||| exists|id: Seq<char>| e == #[trigger] contains_edge(scene, id)
}

spec fn only_function_edges(scene: Scene, seen: Seq<SeenView>, builder: BuilderView) -> bool {
    forall|e: EdgeView| #[trigger] builder.edges.contains(e) ==> is_function_edge(scene, seen, e)
}

proof fn lemma_edge_determined(scene: Scene, seen: Seq<SeenView>, a: EdgeView, b: EdgeView)
    requires
        is_function_edge(scene, seen, a),
        is_function_edge(scene, seen, b),
        edge_rank(a, b) == Rank::Same,
    ensures
        a == b,
{
    crate::graph::lemma_edge_same(a, b);
}

/// Add an edge of a function graph.
fn add_function_edge(builder: &mut GraphBuilder, edge: Edge, Ghost(scene): Ghost<Scene>, Ghost(seen): Ghost<Seq<SeenView>>)
    requires
        old(builder).valid(),
        only_function_edges(scene, seen, old(builder)@),
        is_function_edge(scene, seen, edge@),
    ensures
        final(builder).valid(),
        only_function_edges(scene, seen, final(builder)@),
        final(builder)@ == (BuilderView { edges: old(builder)@.edges.insert(edge@), ..old(builder)@ }),
{
    let ghost given = builder@;
    let ghost e = edge@;
    builder.add_edge(edge);
    proof {
        if given.has_edge(e) {
            let p = choose|p: EdgeView| given.edges.contains(p) && #[trigger] edge_rank(p, e) == Rank::Same;
            lemma_edge_determined(scene, seen, p, e);
            assert(given.edges.insert(e) =~= given.edges);
        }
        assert(builder@ =~= BuilderView { edges: given.edges.insert(e), ..given });
    }
}

proof fn lemma_entry_known(seen: Seq<SeenView>, k: int)
    requires
        0 <= k < seen.len(),
    ensures
        entry_of(seen, seen[k].from, seen[k].to, seen[k].guessed) is Some,
    decreases seen.len(),
{
    if k < seen.len() - 1 {
        lemma_entry_known(seen.drop_last(), k);
        assert(seen.drop_last()[k] == seen[k]);
    }
}

/// Add an edge for every call relationship between functions the walk reached.
///
/// Both ends must be reached, for the same reason an import edge needs both. A
/// cycle's closing edge is among the reached pairs, so it survives while the
/// walk still ends.
fn add_call_edges(builder: &mut GraphBuilder, seen: &Vec<Seen>, reached: &Reached, relations: &Vec<Relation>, Ghost(scene): Ghost<Scene>)
    requires
        old(builder).valid(),
        only_function_edges(scene, seen_views(seen@), old(builder)@),
    ensures
        final(builder).valid(),
        only_function_edges(scene, seen_views(seen@), final(builder)@),
        final(builder)@.nodes == old(builder)@.nodes,
        final(builder)@.roots == old(builder)@.roots,
        forall|e: EdgeView| #[trigger]
            final(builder)@.edges.contains(e) <==> old(builder)@.edges.contains(e) || is_call_edge(seen_views(seen@), relations@, reached@, e),
{
    let ghost views = seen_views(seen@);
    let ghost given = builder@;
    let calls = CallEdges::of(seen);
    let mut i: usize = 0;
    while i < seen.len()
        invariant
            i <= seen.len(),
            views == seen_views(seen@),
            calls.hold(views),
            builder.valid(),
            only_function_edges(scene, views, builder@),
            builder@.nodes == given.nodes,
            builder@.roots == given.roots,
            forall|e: EdgeView| #[trigger]
                builder@.edges.contains(e) <==> given.edges.contains(e) || exists|k: int|
                    0 <= k < i && followed(relations@, #[trigger] views[k]) && reached@.contains_key(views[k].from) && reached@.contains_key(views[k].to)
                        && e == call_edge(views, views[k].from, views[k].to, views[k].guessed),
        decreases seen.len() - i,
    {
        let call = &seen[i];
        let ghost before = builder@;
        assert(views[i as int] == call@);
        let wanted = is_followed(relations, call) && reached.contains_key(call.from.as_str()) && reached.contains_key(call.to.as_str());
        if wanted {
            proof {
                lemma_entry_known(views, i as int);
                assert(entry_at(calls.exact@, call@.from, call@.to) == entry_of(views, call@.from, call@.to, false));
                assert(entry_at(calls.guesses@, call@.from, call@.to) == entry_of(views, call@.from, call@.to, true));
            }
            if let Some(entry) = calls.get(call) {
                let status = status_for(entry.in_base, entry.in_target);
                let line = if status == EdgeStatus::Removed {
                    entry.base_line
                } else {
                    entry.target_line
                };
                let edge = Edge {
                    from: call.from.clone(),
                    to: call.to.clone(),
                    relation: if call.guessed {
                        Relation::PossibleCall
                    } else {
                        Relation::Calls
                    },
                    status,
                    resolution: entry.resolution,
                    evidence: match line {
                        Some(line) => Some(Evidence { file: entry.site.clone(), line }),
                        None => None,
                    },
                };
                assert(edge@ =~= call_edge(views, call@.from, call@.to, call@.guessed));
                add_function_edge(builder, edge, Ghost(scene), Ghost(views));
                assert(builder@.edges == before.edges.insert(call_edge(views, call@.from, call@.to, call@.guessed)));
            }
        }
        proof {
            assert forall|e: EdgeView| #[trigger] builder@.edges.contains(e) <==> given.edges.contains(e) || exists|k: int|
                0 <= k < i + 1 && followed(relations@, #[trigger] views[k]) && reached@.contains_key(views[k].from) && reached@.contains_key(views[k].to)
                    && e == call_edge(views, views[k].from, views[k].to, views[k].guessed) by {
                if before.edges.contains(e) && !given.edges.contains(e) {
                    let k = choose|k: int|
                        0 <= k < i && followed(relations@, #[trigger] views[k]) && reached@.contains_key(views[k].from) && reached@.contains_key(
                            views[k].to,
                        ) && e == call_edge(views, views[k].from, views[k].to, views[k].guessed);
                    assert(followed(relations@, views[k]));
                }
                if wanted && e == call_edge(views, call@.from, call@.to, call@.guessed) {
                    assert(followed(relations@, views[i as int]));
                }
            }
        }
        i = i + 1;
    }
}

/// Attach the module to every function of its own that the graph holds.
///
/// `contains` is not walked: the module sits one hop above the root, and only
/// the root module's own functions are attached.
fn add_contains_edges(builder: &mut GraphBuilder, resolver: &Resolver, local: &TextMap<usize>, reached: &Reached, Ghost(seen): Ghost<Seq<SeenView>>)
    requires
        old(builder).valid(),
        only_function_edges(resolver.scene(), seen, old(builder)@),
        forall|id: Seq<char>|
            local_place(resolver.scene().file, id) == if #[trigger] local@.contains_key(id) {
                Some(local@[id] as int)
            } else {
                None
            },
    ensures
        final(builder).valid(),
        final(builder)@.nodes == old(builder)@.nodes,
        final(builder)@.roots == old(builder)@.roots,
        forall|e: EdgeView| #[trigger]
            final(builder)@.edges.contains(e) <==> old(builder)@.edges.contains(e) || is_contains_edge(resolver.scene(), reached@, e),
{
    let ghost scene = resolver.scene();
    let ghost given = builder@;
    let n: usize = reached.len();
    let ghost keys = reached.keys();
    let mut i: usize = 0;
    while i < n
        invariant
            n == keys.len(),
            keys == reached.keys(),
            i <= n,
            scene == resolver.scene(),
            forall|id: Seq<char>|
                local_place(scene.file, id) == if #[trigger] local@.contains_key(id) {
                    Some(local@[id] as int)
                } else {
                    None
                },
            builder.valid(),
            only_function_edges(scene, seen, builder@),
            builder@.nodes == given.nodes,
            builder@.roots == given.roots,
            forall|e: EdgeView| #[trigger]
                builder@.edges.contains(e) <==> given.edges.contains(e) || exists|id: Seq<char>|
                    keys.take(i as int).contains(id) && is_contained(scene, id) && e == #[trigger] contains_edge(scene, id),
        decreases n - i,
    {
        let id = reached.key_at(i);
        let ghost before = builder@;
        let ghost short = keys.take(i as int);
        let ghost long = keys.take(i + 1);
        proof {
            assert(long =~= short.push(id@));
            crate::collections::lemma_push_contains(short, id@);
            lemma_last_identified(scene.file, id@, scene.file.functions.len() as int);
        }
        if let Some(at) = local.get(id) {
            let (in_base, in_target) = resolver.sides_of(*at);
            if in_base || in_target {
                let edge = Edge {
                    from: Node::module_id(resolver.root_path()),
                    to: id.to_owned(),
                    relation: Relation::Contains,
                    status: status_for(in_base, in_target),
                    resolution: Resolution::Declaration,
                    evidence: None,
                };
                assert(edge@ =~= contains_edge(scene, id@));
                add_function_edge(builder, edge, Ghost(scene), Ghost(seen));
                assert(builder@.edges == before.edges.insert(contains_edge(scene, id@)));
            }
        }
        proof {
            assert forall|e: EdgeView| #[trigger] builder@.edges.contains(e) <==> given.edges.contains(e) || exists|x: Seq<char>|
                long.contains(x) && is_contained(scene, x) && e == #[trigger] contains_edge(scene, x) by {
                if before.edges.contains(e) && !given.edges.contains(e) {
                    let x = choose|x: Seq<char>| short.contains(x) && is_contained(scene, x) && e == #[trigger] contains_edge(scene, x);
                    assert(long.contains(x));
                }
                if is_contained(scene, id@) && e == contains_edge(scene, id@) {
                    assert(long.contains(id@));
                }
                if exists|x: Seq<char>| long.contains(x) && is_contained(scene, x) && e == #[trigger] contains_edge(scene, x) {
                    let x = choose|x: Seq<char>| long.contains(x) && is_contained(scene, x) && e == #[trigger] contains_edge(scene, x);
                    if x != id@ {
                        assert(short.contains(x));
                    }
                }
            }
        }
        i = i + 1;
    }
    proof {
        assert(keys.take(n as int) =~= keys);
        assert forall|e: EdgeView| #[trigger] builder@.edges.contains(e) <==> given.edges.contains(e) || is_contains_edge(scene, reached@, e) by {
            if builder@.edges.contains(e) && !given.edges.contains(e) {
                let id = choose|id: Seq<char>| keys.contains(id) && is_contained(scene, id) && e == #[trigger] contains_edge(scene, id);
                assert(reached@.contains_key(id));
            }
            if is_contains_edge(scene, reached@, e) {
                let id = choose|id: Seq<char>| reached@.contains_key(id) && is_contained(scene, id) && e == #[trigger] contains_edge(scene, id);
                assert(keys.contains(id));
            }
        }
    }
}

/// The graph of the function at a place of the root's file, before a view
/// narrows it.
pub open spec fn calls_around(scene: Scene, at: int, direction: Direction, relations: Seq<Relation>, depth: u32) -> BuilderView {
    let seen = all_seen(scene);
    let root = function_identity(identity(scene.file, scene.file.functions[at]));
    let reached = reached_functions(seen, relations, root, direction, depth);
    let whole = BuilderView {
        nodes: function_nodes(scene, seen, reached),
        edges: Set::new(|e: EdgeView| is_call_edge(seen, relations, reached, e)),
        roots: Set::empty().insert(root),
    };
    if relations.contains(Relation::Contains) {
        let attached = whole.with_node(module_facts(scene.files, scene.path, 1));
        BuilderView {
            edges: Set::new(|e: EdgeView| is_call_edge(seen, relations, reached, e) || is_contains_edge(scene, reached, e)),
            ..attached
        }
    } else {
        whole
    }
}

/// Build the graph of the function at a place of a file.
pub(crate) fn function_graph(
    result: &AnalysisResult,
    revisions: &Revisions,
    request: &Request,
    file: &FileResult,
    path: &str,
    at: usize,
) -> (r: (GraphBuilder, u32))
    requires
        at < file.functions@.len(),
    ensures
        r.0.valid(),
        ({
            let scene = Scene {
                files: result@.files,
                revisions: revisions@,
                guess: request.relations@.contains(Relation::PossibleCall),
                view: request.view,
                file: file@,
                path: path@,
            };
            r.0@ == calls_around(scene, at as int, request.direction, request.relations@, request.depth) && r.1 == saturated(
                all_missed(scene).to_set().len(),
            )
        }),
{
    let relations = request.relations;
    let resolver = Resolver::new(result, revisions, holds_relation(relations, Relation::PossibleCall), request.view, file, path);
    let ghost scene = resolver.scene();
    let (seen, unresolved) = resolver.sightings();
    let ghost views = seen_views(seen@);
    assert(file@.functions[at as int] == file.functions@[at as int]@);
    let id = function_id(file, &file.functions[at]);
    let root = Node::function_id(id.as_str());
    let reached = walk_calls(&seen, relations, root.as_str(), request.direction, request.depth);
    let ghost root_id = root@;
    let ghost reach = reached@;
    let mut builder = GraphBuilder::new();
    builder.add_root(root);
    let local = local_table(file);
    add_function_nodes(&mut builder, &resolver, &local, &seen, &reached);
    add_call_edges(&mut builder, &seen, &reached, relations, Ghost(scene));
    let ghost whole = BuilderView {
        nodes: function_nodes(scene, views, reach),
        edges: Set::new(|e: EdgeView| is_call_edge(views, relations@, reach, e)),
        roots: Set::empty().insert(root_id),
    };
    proof {
        assert(builder@.roots =~= whole.roots);
        assert(builder@.edges =~= whole.edges);
        assert(builder@ =~= whole);
    }
    if holds_relation(relations, Relation::Contains) {
        builder.add_node(module_node(result, path, 1));
        let ghost attached = builder@;
        add_contains_edges(&mut builder, &resolver, &local, &reached, Ghost(views));
        proof {
            let wanted = BuilderView {
                edges: Set::new(|e: EdgeView| is_call_edge(views, relations@, reach, e) || is_contains_edge(scene, reach, e)),
                ..attached
            };
            assert(builder@.edges =~= wanted.edges);
            assert(builder@ =~= wanted);
        }
    }
    (builder, unresolved)
}

/// Whether a call is one of a relationship between two functions.
pub open spec fn is_between(call: SeenView, from: Seq<char>, to: Seq<char>, guessed: bool) -> bool {
    call.from == from && call.to == to && call.guessed == guessed
}

proof fn lemma_entry_sides(seen: Seq<SeenView>, from: Seq<char>, to: Seq<char>, guessed: bool)
    ensures
        match entry_of(seen, from, to, guessed) {
            Some(entry) => {
                &&& entry.in_base == exists|k: int|
                    0 <= k < seen.len() && is_between(#[trigger] seen[k], from, to, guessed) && seen[k].side == Side::Base
                &&& entry.in_target == exists|k: int|
                    0 <= k < seen.len() && is_between(#[trigger] seen[k], from, to, guessed) && seen[k].side == Side::Target
                &&& entry.in_base || entry.in_target
            },
            None => forall|k: int| 0 <= k < seen.len() ==> !is_between(#[trigger] seen[k], from, to, guessed),
        },
    decreases seen.len(),
{
    if seen.len() > 0 {
        let shorter = seen.drop_last();
        lemma_entry_sides(shorter, from, to, guessed);
        assert forall|k: int| 0 <= k < shorter.len() implies #[trigger] shorter[k] == seen[k] by {}
        assert(seen[seen.len() - 1] == seen.last());
        if entry_of(shorter, from, to, guessed) is Some {
            let entry = entry_of(shorter, from, to, guessed)->0;
            if entry.in_base {
                let k = choose|k: int|
                    0 <= k < shorter.len() && is_between(#[trigger] shorter[k], from, to, guessed) && shorter[k].side == Side::Base;
                assert(is_between(seen[k], from, to, guessed));
            }
            if entry.in_target {
                let k = choose|k: int|
                    0 <= k < shorter.len() && is_between(#[trigger] shorter[k], from, to, guessed) && shorter[k].side == Side::Target;
                assert(is_between(seen[k], from, to, guessed));
            }
        }
        assert forall|k: int| 0 <= k < seen.len() && is_between(#[trigger] seen[k], from, to, guessed) implies k == seen.len() - 1 || is_between(
            shorter[k],
            from,
            to,
            guessed,
        ) by {}
    }
}

/// An edge of calls says which revisions wrote them: one that both wrote is
/// unchanged, one that only the target wrote was added, and one that only the
/// base wrote was removed.
pub proof fn lemma_call_status_is_membership(seen: Seq<SeenView>, from: Seq<char>, to: Seq<char>, guessed: bool)
    requires
        exists|k: int| 0 <= k < seen.len() && is_between(#[trigger] seen[k], from, to, guessed),
    ensures
        in_base(call_edge(seen, from, to, guessed).status) == exists|k: int|
            0 <= k < seen.len() && is_between(#[trigger] seen[k], from, to, guessed) && seen[k].side == Side::Base,
        in_target(call_edge(seen, from, to, guessed).status) == exists|k: int|
            0 <= k < seen.len() && is_between(#[trigger] seen[k], from, to, guessed) && seen[k].side == Side::Target,
{
    lemma_entry_sides(seen, from, to, guessed);
}

/// A graph has an edge of calls only under a relation that the request names,
/// so a guess is delivered only to a request for guesses.
pub proof fn lemma_only_named_relations(seen: Seq<SeenView>, relations: Seq<Relation>, reached: Map<Seq<char>, u32>, e: EdgeView)
    requires
        is_call_edge(seen, relations, reached, e),
    ensures
        relations.contains(e.relation),
        e.relation == Relation::Calls || e.relation == Relation::PossibleCall,
        reached.contains_key(e.from),
        reached.contains_key(e.to),
{
}

} // verus!

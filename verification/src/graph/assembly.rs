//! Build a delta graph from an analysis and the two revisions' indexes.
//!
//! [`crate::graph`] says what a graph is; this module says where its
//! relationships come from: two revisions' indexes, the file statuses the
//! analysis already computed, the test links [`crate::query::impact`] already
//! resolves, and the calls that [`crate::graph::calls`] resolves.
//!
//! Every edge is decided from the union of the two indexes rather than from the
//! target alone. One revision can show what exists; only two can prove that a
//! relationship was removed.

use vstd::prelude::*;
use vstd::view::View as _;

use crate::analysis::FunctionChangeStatus;
use crate::analysis::saturated;
use crate::collections::{listed, TextMap, TextSet};
use crate::graph::callgraph::calls_around;
use crate::graph::calls::{all_missed, index_on, path_on, view_has_side, view_includes_side, Scene, Side};
use crate::graph::groups::{collapse_groups, grouped_graph};
use crate::graph::reach::{hops_along, is_reach, lemma_reach_unique, walk_along, Reached};
use crate::graph::{
    delivered, edge_rank, function_identity, in_base, in_target, last_segment, module_identity, nothing_lacks, reported, BuilderView,
    Completeness, CompletenessView, Direction, Edge, EdgeStatus, EdgeView, Evidence, Graph, GraphBuilder, GraphView, Limits, Node, NodeKind,
    NodeStatus, NodeView, Relation, Resolution, View,
};
use crate::imports::symbols::{FileSymbolsView, SymbolIndex};
use crate::imports::{missed_by, read_in_part, ImportIndex, IndexView};
use crate::order::picked;
use crate::query::impact::{for_file, test_views, tests_for, RelatedTest, TestLink};
use crate::query::rows::{function_id, identity};
use crate::result::{file_views, AnalysisResult, FileResult, FileView, FunctionResult, FunctionView, ResultView};
use crate::text::{same_text, texts, Rank};
use crate::FileStatus;

verus! {

/// Everything one comparison's two revisions know about relationships.
///
/// The import graphs cover every file of each revision; the symbol indexes
/// cover only the files whose exports were read. Both sides are always present,
/// because only two revisions can prove that a relationship was removed.
pub struct Revisions<'a> {
    pub base: &'a ImportIndex,
    pub target: &'a ImportIndex,
    pub base_symbols: &'a SymbolIndex,
    pub target_symbols: &'a SymbolIndex,
}

/// Two revisions by what they hold.
#[verifier::ext_equal]
pub struct RevisionsView {
    pub base: IndexView,
    pub target: IndexView,
    pub base_symbols: Map<Seq<char>, FileSymbolsView>,
    pub target_symbols: Map<Seq<char>, FileSymbolsView>,
}

impl<'a> vstd::view::View for Revisions<'a> {
    type V = RevisionsView;

    open spec fn view(&self) -> RevisionsView {
        RevisionsView {
            base: self.base@,
            target: self.target@,
            base_symbols: self.base_symbols@,
            target_symbols: self.target_symbols@,
        }
    }
}

/// What a graph request asks for, once the caller has validated it.
pub struct Request<'a> {
    /// Repository-relative paths the walk starts from. Empty means every
    /// changed file in the analysis.
    pub roots: &'a Vec<String>,
    /// The identity of the function the graph is rooted at, or `None` for a
    /// graph rooted at [`Request::roots`].
    pub function_root: Option<&'a str>,
    pub direction: Direction,
    pub relations: &'a Vec<Relation>,
    pub depth: u32,
    pub view: View,
    pub limits: Limits,
}

/// A request by what it asks for.
#[verifier::ext_equal]
pub struct RequestView {
    pub roots: Seq<Seq<char>>,
    pub function_root: Option<Seq<char>>,
    pub direction: Direction,
    pub relations: Seq<Relation>,
    pub depth: u32,
    pub view: View,
    pub limits: Limits,
}

impl<'a> vstd::view::View for Request<'a> {
    type V = RequestView;

    open spec fn view(&self) -> RequestView {
        RequestView {
            roots: texts(self.roots@),
            function_root: crate::query::files::borrowed_text(self.function_root),
            direction: self.direction,
            relations: self.relations@,
            depth: self.depth,
            view: self.view,
            limits: self.limits,
        }
    }
}

/// Whether a path lies next to another in a revision: it is the path itself,
/// imports it or is imported by it.
pub open spec fn is_near(index: IndexView, path: Seq<char>, other: Seq<char>) -> bool {
    other == path || index.edges.contains((other, path)) || index.edges.contains((path, other))
}

/// Whether a file has a path on one of its sides.
pub open spec fn has_path(file: FileView, path: Seq<char>) -> bool {
    file.base_path == Some(path) || file.target_path == Some(path)
}

/// The files whose exports a comparison may read: the changed files, and what
/// lies next to them in either revision.
pub open spec fn admitted_paths(files: Seq<FileView>, base: IndexView, target: IndexView) -> Set<Seq<char>> {
    Set::new(
        |other: Seq<char>|
            exists|i: int, path: Seq<char>|
                0 <= i < files.len() && #[trigger] has_path(files[i], path) && (is_near(base, path, other) || is_near(target, path, other)),
    )
}

/// Add a path and what lies next to it in either revision.
fn let_in(admitted: &mut TextSet, path: &str, base: &ImportIndex, target: &ImportIndex)
    ensures
        forall|other: Seq<char>| #[trigger]
            final(admitted)@.contains(other) <==> old(admitted)@.contains(other) || is_near(base@, path@, other) || is_near(target@, path@, other),
{
    admitted.insert(path.to_owned());
    admitted.extend(base.importers(path));
    admitted.extend(base.dependencies(path));
    admitted.extend(target.importers(path));
    admitted.extend(target.dependencies(path));
}

/// The files cross-file resolution may parse, for one comparison.
///
/// A file can only call into a changed module if it imports that module, so the
/// set is the changed files themselves, their direct importers on either side,
/// and the modules they import.
#[must_use]
pub fn admitted_files(result: &AnalysisResult, base: &ImportIndex, target: &ImportIndex) -> (r: TextSet)
    ensures
        r@ == admitted_paths(result@.files, base@, target@),
{
    let ghost files = result@.files;
    let mut admitted = TextSet::new();
    let mut i: usize = 0;
    while i < result.files.len()
        invariant
            i <= result.files.len(),
            files == file_views(result.files@),
            forall|other: Seq<char>| #[trigger]
                admitted@.contains(other) <==> exists|k: int, path: Seq<char>|
                    0 <= k < i && #[trigger] has_path(files[k], path) && (is_near(base@, path, other) || is_near(target@, path, other)),
        decreases result.files.len() - i,
    {
        let file = &result.files[i];
        let ghost before = admitted@;
        assert(files[i as int] == file@);
        if let Some(path) = &file.base_path {
            let_in(&mut admitted, path.as_str(), base, target);
        }
        if let Some(path) = &file.target_path {
            let_in(&mut admitted, path.as_str(), base, target);
        }
        proof {
            assert forall|other: Seq<char>| #[trigger] admitted@.contains(other) <==> exists|k: int, path: Seq<char>|
                0 <= k < i + 1 && #[trigger] has_path(files[k], path) && (is_near(base@, path, other) || is_near(target@, path, other)) by {
                if before.contains(other) {
                    let (k, path) = choose|k: int, path: Seq<char>|
                        0 <= k < i && #[trigger] has_path(files[k], path) && (is_near(base@, path, other) || is_near(target@, path, other));
                    assert(has_path(files[k], path));
                }
                if admitted@.contains(other) && !before.contains(other) {
                    let path = choose|path: Seq<char>| #[trigger]
                        has_path(file@, path) && (is_near(base@, path, other) || is_near(target@, path, other));
                    if file@.base_path is Some {
                        assert(has_path(file@, file@.base_path->0));
                    }
                    if file@.target_path is Some {
                        assert(has_path(file@, file@.target_path->0));
                    }
                    assert(has_path(files[i as int], path));
                }
                if exists|k: int, path: Seq<char>|
                    0 <= k < i + 1 && #[trigger] has_path(files[k], path) && (is_near(base@, path, other) || is_near(target@, path, other)) {
                    let (k, path) = choose|k: int, path: Seq<char>|
                        0 <= k < i + 1 && #[trigger] has_path(files[k], path) && (is_near(base@, path, other) || is_near(target@, path, other));
                    if k < i {
                        assert(before.contains(other));
                    }
                }
            }
        }
        i = i + 1;
    }
    assert(admitted@ =~= admitted_paths(files, base@, target@));
    admitted
}

/// The path that a changed file is reported under: its target path, or its base
/// path where it was deleted.
pub open spec fn changed_path_of(file: FileView) -> Option<Seq<char>> {
    match file.target_path {
        Some(path) => Some(path),
        None => file.base_path,
    }
}

fn changed_path(file: &FileResult) -> (r: Option<&str>)
    ensures
        crate::query::files::borrowed_text(r) == changed_path_of(file@),
{
    match &file.target_path {
        Some(path) => Some(path.as_str()),
        None => match &file.base_path {
            Some(path) => Some(path.as_str()),
            None => None,
        },
    }
}

/// The paths of changed files, in the order of the analysis.
pub open spec fn changed_roots(files: Seq<FileView>) -> Seq<Seq<char>>
    decreases files.len(),
{
    if files.len() == 0 {
        Seq::empty()
    } else {
        match changed_path_of(files.last()) {
            Some(path) => changed_roots(files.drop_last()).push(path),
            None => changed_roots(files.drop_last()),
        }
    }
}

/// The paths that a walk starts from: what the caller named, or the changed
/// set.
pub open spec fn root_paths_of(files: Seq<FileView>, roots: Seq<Seq<char>>) -> Seq<Seq<char>> {
    if roots.len() > 0 {
        roots
    } else {
        changed_roots(files)
    }
}

fn root_paths(result: &AnalysisResult, roots: &Vec<String>) -> (r: Vec<String>)
    ensures
        texts(r@) == root_paths_of(result@.files, texts(roots@)),
{
    if roots.len() > 0 {
        return crate::collections::copy_texts(roots);
    }
    let ghost files = result@.files;
    let mut out: Vec<String> = Vec::new();
    let mut i: usize = 0;
    assert(texts(out@) =~= changed_roots(files.take(0)));
    while i < result.files.len()
        invariant
            i <= result.files.len(),
            files == file_views(result.files@),
            texts(out@) == changed_roots(files.take(i as int)),
        decreases result.files.len() - i,
    {
        let ghost so_far = texts(out@);
        assert(files.take(i + 1).drop_last() =~= files.take(i as int));
        assert(files.take(i + 1).last() == result.files@[i as int]@);
        if let Some(path) = changed_path(&result.files[i]) {
            out.push(path.to_owned());
            assert(texts(out@) =~= so_far.push(path@));
        }
        i = i + 1;
    }
    assert(files.take(i as int) =~= files);
    out
}

/// How a file status reads as a node status: a renamed or binary file is one
/// that the comparison touched.
pub open spec fn node_status_of(status: FileStatus) -> NodeStatus {
    match status {
        FileStatus::Added => NodeStatus::Added,
        FileStatus::Deleted => NodeStatus::Removed,
        _ => NodeStatus::Modified,
    }
}

/// The status that an analysis gives a path. One that the diff does not contain
/// is unchanged.
pub open spec fn status_in(files: Seq<FileView>, path: Seq<char>) -> NodeStatus
    decreases files.len(),
{
    if files.len() == 0 {
        NodeStatus::Unchanged
    } else if changed_path_of(files.last()) == Some(path) {
        node_status_of(files.last().status)
    } else {
        status_in(files.drop_last(), path)
    }
}

fn status_of(result: &AnalysisResult, path: &str) -> (r: NodeStatus)
    ensures
        r == status_in(result@.files, path@),
{
    let ghost files = result@.files;
    let mut i: usize = result.files.len();
    assert(files.take(i as int) =~= files);
    while i > 0
        invariant
            i <= result.files.len(),
            files == file_views(result.files@),
            files == result@.files,
            status_in(files, path@) == status_in(files.take(i as int), path@),
        decreases i,
    {
        let file = &result.files[i - 1];
        assert(files.take(i as int).drop_last() =~= files.take(i - 1));
        assert(files.take(i as int).last() == file@);
        let here = match changed_path(file) {
            Some(known) => same_text(known, path),
            None => false,
        };
        if here {
            return match file.status {
                FileStatus::Added => NodeStatus::Added,
                FileStatus::Deleted => NodeStatus::Removed,
                _ => NodeStatus::Modified,
            };
        }
        i = i - 1;
    }
    NodeStatus::Unchanged
}

/// The node of the file at a path.
pub open spec fn module_facts(files: Seq<FileView>, path: Seq<char>, depth: u32) -> NodeView {
    NodeView {
        id: module_identity(path),
        key: Seq::empty(),
        label: last_segment(path),
        kind: NodeKind::Module,
        path,
        status: status_in(files, path),
        depth,
    }
}

pub(crate) fn module_node(result: &AnalysisResult, path: &str, depth: u32) -> (r: Node)
    ensures
        r@ == module_facts(result@.files, path@, depth),
{
    let r = Node {
        id: Node::module_id(path),
        key: String::new(),
        label: Node::basename(path),
        kind: NodeKind::Module,
        path: path.to_owned(),
        status: status_of(result, path),
        depth,
    };
    assert(r@ =~= module_facts(result@.files, path@, depth));
    r
}

/// Whether either revision imports one path from another.
pub open spec fn imports_either(r: RevisionsView, from: Seq<char>, to: Seq<char>) -> bool {
    r.base.edges.contains((from, to)) || r.target.edges.contains((from, to))
}

/// One step of the walk over the union of both revisions: upstream to what
/// imports a path, downstream to what it imports.
pub open spec fn import_way(r: RevisionsView) -> spec_fn(Direction, Seq<char>, Seq<char>) -> bool {
    |d: Direction, a: Seq<char>, b: Seq<char>|
        (crate::graph::reach::follows(d, Direction::Upstream) && imports_either(r, b, a)) || (crate::graph::reach::follows(d, Direction::Downstream)
            && imports_either(r, a, b))
}

pub(crate) fn push_all(out: &mut Vec<String>, items: &TextSet)
    ensures
        texts(final(out)@) == texts(old(out)@) + items.keys(),
        items.ordered(),
{
    let n: usize = items.len();
    let ghost given = texts(out@);
    let ghost names = items.keys();
    let mut i: usize = 0;
    while i < n
        invariant
            n == names.len(),
            names == items.keys(),
            i <= n,
            texts(out@) =~= given + names.take(i as int),
        decreases n - i,
    {
        let ghost so_far = texts(out@);
        out.push(items.key_at(i).to_owned());
        assert(texts(out@) =~= so_far.push(names[i as int]));
        i = i + 1;
    }
    assert(names.take(n as int) =~= names);
}

/// What lies one step from a path, over the union of both revisions.
///
/// The union is what makes a removal visible: a relationship that exists only
/// in the base revision is still a hop the walk can take.
fn adjacent(revisions: &Revisions, path: &str, direction: Direction) -> (r: Vec<String>)
    ensures
        forall|b: Seq<char>| #[trigger] texts(r@).contains(b) <==> import_way(revisions@)(direction, path@, b),
{
    let mut out: Vec<String> = Vec::new();
    let base_importers = revisions.base.importers(path);
    let target_importers = revisions.target.importers(path);
    let base_dependencies = revisions.base.dependencies(path);
    let target_dependencies = revisions.target.dependencies(path);
    let ghost mut up = Seq::<Seq<char>>::empty();
    let ghost mut down = Seq::<Seq<char>>::empty();
    if direction.follows_upstream() {
        push_all(&mut out, base_importers);
        push_all(&mut out, target_importers);
        proof {
            up = base_importers.keys() + target_importers.keys();
        }
    }
    assert(texts(out@) =~= up);
    if direction.follows_downstream() {
        push_all(&mut out, base_dependencies);
        push_all(&mut out, target_dependencies);
        proof {
            down = base_dependencies.keys() + target_dependencies.keys();
        }
    }
    assert(texts(out@) =~= up + down);
    proof {
        let r = revisions@;
        assert forall|b: Seq<char>| #[trigger] texts(out@).contains(b) <==> import_way(r)(direction, path@, b) by {
            lemma_concat_contains(up, down, b);
            if crate::graph::reach::follows(direction, Direction::Upstream) {
                lemma_concat_contains(base_importers.keys(), target_importers.keys(), b);
                assert(base_importers.keys().to_set().contains(b) <==> r.base.edges.contains((b, path@)));
                assert(target_importers.keys().to_set().contains(b) <==> r.target.edges.contains((b, path@)));
            }
            if crate::graph::reach::follows(direction, Direction::Downstream) {
                lemma_concat_contains(base_dependencies.keys(), target_dependencies.keys(), b);
                assert(base_dependencies.keys().to_set().contains(b) <==> r.base.edges.contains((path@, b)));
                assert(target_dependencies.keys().to_set().contains(b) <==> r.target.edges.contains((path@, b)));
            }
        }
    }
    out
}

pub(crate) proof fn lemma_concat_contains(a: Seq<Seq<char>>, b: Seq<Seq<char>>, x: Seq<char>)
    ensures
        (a + b).contains(x) <==> a.contains(x) || b.contains(x),
{
    if a.contains(x) {
        let i = choose|i: int| 0 <= i < a.len() && a[i] == x;
        assert((a + b)[i] == x);
    }
    if b.contains(x) {
        let i = choose|i: int| 0 <= i < b.len() && b[i] == x;
        assert((a + b)[a.len() + i] == x);
    }
    if (a + b).contains(x) {
        let i = choose|i: int| 0 <= i < (a + b).len() && (a + b)[i] == x;
        if i < a.len() {
            assert(a[i] == x);
        } else {
            assert(b[i - a.len()] == x);
        }
    }
}

/// The status of a relationship that at least one revision has.
pub open spec fn membership(base: bool, target: bool) -> EdgeStatus {
    if base && target {
        EdgeStatus::Unchanged
    } else if target {
        EdgeStatus::Added
    } else {
        EdgeStatus::Removed
    }
}

/// Where the statement behind a relationship is written: in the base where the
/// relationship was removed, else in the target.
pub open spec fn evidence_of(r: RevisionsView, from: Seq<char>, to: Seq<char>, status: EdgeStatus) -> Option<(Seq<char>, u32)> {
    let lines = if status == EdgeStatus::Removed {
        r.base.lines
    } else {
        r.target.lines
    };
    if lines.contains_key((from, to)) {
        Some((from, lines[(from, to)]))
    } else {
        None
    }
}

/// The edge of an import.
pub open spec fn import_edge(r: RevisionsView, from: Seq<char>, to: Seq<char>) -> EdgeView {
    let status = membership(r.base.edges.contains((from, to)), r.target.edges.contains((from, to)));
    EdgeView {
        from: module_identity(from),
        to: module_identity(to),
        relation: Relation::Imports,
        status,
        resolution: Resolution::ResolvedSpecifier,
        evidence: evidence_of(r, from, to, status),
    }
}

/// Whether an edge is that of an import between two reached modules.
pub open spec fn is_import_edge(r: RevisionsView, reached: Map<Seq<char>, u32>, e: EdgeView) -> bool {
    exists|from: Seq<char>, to: Seq<char>|
        reached.contains_key(from) && reached.contains_key(to) && imports_either(r, from, to) && e == #[trigger] import_edge(r, from, to)
}

/// The resolution that a test link is reported as.
pub open spec fn link_resolution(link: TestLink) -> Resolution {
    match link {
        TestLink::Imports => Resolution::TestImportsModule,
        TestLink::Convention => Resolution::TestNameMatchesModule,
    }
}

/// Whether a revision links a test to a module.
pub open spec fn links_test(index: IndexView, path: Seq<char>, test: Seq<char>, link: TestLink) -> bool {
    tests_for(index, path).contains((test, link))
}

/// Whether either revision links a test to a module.
pub open spec fn links_either(r: RevisionsView, path: Seq<char>, test: Seq<char>, link: TestLink) -> bool {
    links_test(r.base, path, test, link) || links_test(r.target, path, test, link)
}

/// The edge of a test link. It has no evidence: a name match has no site, and
/// the site of a direct import is the import edge of the test itself.
pub open spec fn test_edge(r: RevisionsView, path: Seq<char>, test: Seq<char>, link: TestLink) -> EdgeView {
    EdgeView {
        from: module_identity(test),
        to: module_identity(path),
        relation: Relation::TestedBy,
        status: membership(links_test(r.base, path, test, link), links_test(r.target, path, test, link)),
        resolution: link_resolution(link),
        evidence: None,
    }
}

/// Whether an edge is that of a test of a reached module.
pub open spec fn is_test_edge(r: RevisionsView, reached: Map<Seq<char>, u32>, e: EdgeView) -> bool {
    exists|path: Seq<char>, test: Seq<char>, link: TestLink|
        reached.contains_key(path) && links_either(r, path, test, link) && e == #[trigger] test_edge(r, path, test, link)
}

/// Whether a revision forwards names from one module out of another.
pub open spec fn forwards_from(index: IndexView, symbols: Map<Seq<char>, FileSymbolsView>, path: Seq<char>, target: Seq<char>) -> bool {
    symbols.contains_key(path) && exists|specifier: Seq<char>| #[trigger]
        symbols[path].re_exported_modules.contains(specifier) && index.targets.contains_key((path, specifier)) && index.targets[(path, specifier)]
            == target
}

/// Whether either revision forwards names from one module out of another.
pub open spec fn forwards_either(r: RevisionsView, path: Seq<char>, target: Seq<char>) -> bool {
    forwards_from(r.base, r.base_symbols, path, target) || forwards_from(r.target, r.target_symbols, path, target)
}

/// The edge of a re-export.
pub open spec fn forward_edge(r: RevisionsView, path: Seq<char>, target: Seq<char>) -> EdgeView {
    let status = membership(forwards_from(r.base, r.base_symbols, path, target), forwards_from(r.target, r.target_symbols, path, target));
    EdgeView {
        from: module_identity(path),
        to: module_identity(target),
        relation: Relation::ReExports,
        status,
        resolution: Resolution::ExportClause,
        evidence: evidence_of(r, path, target, status),
    }
}

/// Whether an edge is that of a re-export between two reached modules.
pub open spec fn is_forward_edge(r: RevisionsView, reached: Map<Seq<char>, u32>, e: EdgeView) -> bool {
    exists|path: Seq<char>, target: Seq<char>|
        reached.contains_key(path) && reached.contains_key(target) && forwards_either(r, path, target) && e == #[trigger] forward_edge(
            r,
            path,
            target,
        )
}

/// Whether an edge belongs to a module graph: it is of a relation that the
/// request follows, and either revision has it between reached modules.
pub open spec fn is_module_edge(r: RevisionsView, relations: Seq<Relation>, reached: Map<Seq<char>, u32>, e: EdgeView) -> bool {
    ||| relations.contains(Relation::Imports) && is_import_edge(r, reached, e)
    ||| relations.contains(Relation::TestedBy) && is_test_edge(r, reached, e)
    ||| relations.contains(Relation::ReExports) && is_forward_edge(r, reached, e)
}

/// Whether an edge is of one of the kinds that a module graph has.
spec fn is_some_edge(r: RevisionsView, e: EdgeView) -> bool {
    ||| exists|from: Seq<char>, to: Seq<char>| e == #[trigger] import_edge(r, from, to)
    ||| exists|path: Seq<char>, test: Seq<char>, link: TestLink| e == #[trigger] test_edge(r, path, test, link)
    ||| exists|path: Seq<char>, target: Seq<char>| e == #[trigger] forward_edge(r, path, target)
}

proof fn lemma_identity_injective(a: Seq<char>, b: Seq<char>)
    ensures
        module_identity(a) == module_identity(b) ==> a == b,
{
    if module_identity(a) == module_identity(b) {
        let n = "module:"@.len() as int;
        assert(module_identity(a).skip(n) =~= a);
        assert(module_identity(b).skip(n) =~= b);
    }
}

proof fn lemma_edge_determined(r: RevisionsView, a: EdgeView, b: EdgeView)
    requires
        is_some_edge(r, a),
        is_some_edge(r, b),
        edge_rank(a, b) == Rank::Same,
    ensures
        a == b,
{
    crate::graph::lemma_edge_same(a, b);
    if a.relation == Relation::Imports {
        let (from, to) = choose|from: Seq<char>, to: Seq<char>| a == #[trigger] import_edge(r, from, to);
        let (x, y) = choose|x: Seq<char>, y: Seq<char>| b == #[trigger] import_edge(r, x, y);
        lemma_identity_injective(from, x);
        lemma_identity_injective(to, y);
    } else if a.relation == Relation::TestedBy {
        let (path, test, link) = choose|path: Seq<char>, test: Seq<char>, link: TestLink| a == #[trigger] test_edge(r, path, test, link);
        let (p, t, l) = choose|p: Seq<char>, t: Seq<char>, l: TestLink| b == #[trigger] test_edge(r, p, t, l);
        lemma_identity_injective(path, p);
        lemma_identity_injective(test, t);
    } else {
        let (path, target) = choose|path: Seq<char>, target: Seq<char>| a == #[trigger] forward_edge(r, path, target);
        let (x, y) = choose|x: Seq<char>, y: Seq<char>| b == #[trigger] forward_edge(r, x, y);
        lemma_identity_injective(path, x);
        lemma_identity_injective(target, y);
    }
}

/// Whether every edge of a builder is of a module graph.
spec fn only_module_edges(r: RevisionsView, builder: BuilderView) -> bool {
    forall|e: EdgeView| #[trigger] builder.edges.contains(e) ==> is_some_edge(r, e)
}

/// Add an edge of a module graph.
fn add_module_edge(builder: &mut GraphBuilder, edge: Edge, Ghost(r): Ghost<RevisionsView>)
    requires
        old(builder).valid(),
        only_module_edges(r, old(builder)@),
        is_some_edge(r, edge@),
    ensures
        final(builder).valid(),
        only_module_edges(r, final(builder)@),
        final(builder)@ == (BuilderView { edges: old(builder)@.edges.insert(edge@), ..old(builder)@ }),
{
    let ghost given = builder@;
    let ghost e = edge@;
    builder.add_edge(edge);
    proof {
        if given.has_edge(e) {
            let p = choose|p: EdgeView| given.edges.contains(p) && #[trigger] edge_rank(p, e) == Rank::Same;
            lemma_edge_determined(r, p, e);
            assert(given.edges.insert(e) =~= given.edges);
        }
        assert(builder@ =~= BuilderView { edges: given.edges.insert(e), ..given });
    }
}

fn import_evidence(revisions: &Revisions, from: &str, to: &str, status: EdgeStatus) -> (r: Option<Evidence>)
    ensures
        (match r {
            Some(evidence) => Some((evidence.file@, evidence.line)),
            None => None,
        }) == evidence_of(revisions@, from@, to@, status),
{
    let line = if status == EdgeStatus::Removed {
        revisions.base.import_line(from, to)
    } else {
        revisions.target.import_line(from, to)
    };
    match line {
        Some(line) => Some(Evidence { file: from.to_owned(), line }),
        None => None,
    }
}

pub(crate) fn status_for(base: bool, target: bool) -> (r: EdgeStatus)
    ensures
        r == membership(base, target),
{
    if base && target {
        EdgeStatus::Unchanged
    } else if target {
        EdgeStatus::Added
    } else {
        EdgeStatus::Removed
    }
}

/// Add the import edges from a path to those of some names that were reached.
fn add_imports_to(builder: &mut GraphBuilder, revisions: &Revisions, reached: &Reached, from: &str, names: &TextSet)
    requires
        old(builder).valid(),
        only_module_edges(revisions@, old(builder)@),
    ensures
        final(builder).valid(),
        only_module_edges(revisions@, final(builder)@),
        final(builder)@.nodes == old(builder)@.nodes,
        final(builder)@.roots == old(builder)@.roots,
        forall|e: EdgeView| #[trigger]
            final(builder)@.edges.contains(e) <==> old(builder)@.edges.contains(e) || exists|to: Seq<char>|
                names@.contains(to) && reached@.contains_key(to) && e == #[trigger] import_edge(revisions@, from@, to),
{
    let ghost r = revisions@;
    let ghost given = builder@;
    let n: usize = names.len();
    let ghost keys = names.keys();
    let mut i: usize = 0;
    while i < n
        invariant
            n == keys.len(),
            keys == names.keys(),
            i <= n,
            r == revisions@,
            builder.valid(),
            only_module_edges(r, builder@),
            builder@.nodes == given.nodes,
            builder@.roots == given.roots,
            forall|e: EdgeView| #[trigger]
                builder@.edges.contains(e) <==> given.edges.contains(e) || exists|to: Seq<char>|
                    keys.take(i as int).contains(to) && reached@.contains_key(to) && e == #[trigger] import_edge(r, from@, to),
        decreases n - i,
    {
        let to = names.key_at(i);
        let ghost before = builder@;
        let ghost short = keys.take(i as int);
        let ghost long = keys.take(i + 1);
        proof {
            assert(long =~= short.push(to@));
            crate::collections::lemma_push_contains(short, to@);
        }
        if reached.contains_key(to) {
            let status = status_for(revisions.base.dependencies(from).contains(to), revisions.target.dependencies(from).contains(to));
            let edge = Edge {
                from: Node::module_id(from),
                to: Node::module_id(to),
                relation: Relation::Imports,
                status,
                resolution: Resolution::ResolvedSpecifier,
                evidence: import_evidence(revisions, from, to, status),
            };
            assert(edge@ =~= import_edge(r, from@, to@));
            add_module_edge(builder, edge, Ghost(r));
        }
        proof {
            assert forall|e: EdgeView| #[trigger] builder@.edges.contains(e) <==> given.edges.contains(e) || exists|x: Seq<char>|
                long.contains(x) && reached@.contains_key(x) && e == #[trigger] import_edge(r, from@, x) by {
                if before.edges.contains(e) && !given.edges.contains(e) {
                    let x = choose|x: Seq<char>| short.contains(x) && reached@.contains_key(x) && e == #[trigger] import_edge(r, from@, x);
                    assert(long.contains(x));
                }
                if exists|x: Seq<char>| long.contains(x) && reached@.contains_key(x) && e == #[trigger] import_edge(r, from@, x) {
                    let x = choose|x: Seq<char>| long.contains(x) && reached@.contains_key(x) && e == #[trigger] import_edge(r, from@, x);
                    if x != to@ {
                        assert(short.contains(x));
                    }
                }
                if reached@.contains_key(to@) && e == import_edge(r, from@, to@) {
                    assert(long.contains(to@));
                }
            }
        }
        i = i + 1;
    }
    proof {
        assert(keys.take(n as int) =~= keys);
        assert forall|to: Seq<char>| keys.contains(to) <==> names@.contains(to) by {
            assert(keys.to_set().contains(to) <==> names@.contains(to));
        }
    }
}

/// Whether an edge is that of an import from one module to a reached one.
spec fn imported_from(r: RevisionsView, reached: Map<Seq<char>, u32>, from: Seq<char>, e: EdgeView) -> bool {
    exists|to: Seq<char>| reached.contains_key(to) && imports_either(r, from, to) && e == #[trigger] import_edge(r, from, to)
}

/// Add an `imports` edge for every ordered pair of reached modules the union of
/// the two revisions resolves.
///
/// Both ends must be reached: an edge to a module outside the walk would show a
/// relationship the request asked not to follow.
fn add_import_edges(builder: &mut GraphBuilder, revisions: &Revisions, reached: &Reached)
    requires
        old(builder).valid(),
        only_module_edges(revisions@, old(builder)@),
    ensures
        final(builder).valid(),
        only_module_edges(revisions@, final(builder)@),
        final(builder)@.nodes == old(builder)@.nodes,
        final(builder)@.roots == old(builder)@.roots,
        forall|e: EdgeView| #[trigger]
            final(builder)@.edges.contains(e) <==> old(builder)@.edges.contains(e) || is_import_edge(revisions@, reached@, e),
{
    let ghost r = revisions@;
    let ghost given = builder@;
    let n: usize = reached.len();
    let ghost keys = reached.keys();
    let mut i: usize = 0;
    while i < n
        invariant
            n == keys.len(),
            keys == reached.keys(),
            i <= n,
            r == revisions@,
            builder.valid(),
            only_module_edges(r, builder@),
            builder@.nodes == given.nodes,
            builder@.roots == given.roots,
            forall|e: EdgeView| #[trigger]
                builder@.edges.contains(e) <==> given.edges.contains(e) || exists|k: int|
                    0 <= k < i && imported_from(r, reached@, #[trigger] keys[k], e),
        decreases n - i,
    {
        let from = reached.key_at(i);
        let ghost before = builder@;
        let base_names = revisions.base.dependencies(from);
        let target_names = revisions.target.dependencies(from);
        add_imports_to(builder, revisions, reached, from, base_names);
        let ghost middle = builder@;
        add_imports_to(builder, revisions, reached, from, target_names);
        proof {
            assert forall|e: EdgeView| #[trigger] builder@.edges.contains(e) <==> given.edges.contains(e) || exists|k: int|
                0 <= k < i + 1 && imported_from(r, reached@, #[trigger] keys[k], e) by {
                assert(builder@.edges.contains(e) <==> middle.edges.contains(e) || exists|to: Seq<char>|
                    target_names@.contains(to) && reached@.contains_key(to) && e == #[trigger] import_edge(r, from@, to));
                assert(middle.edges.contains(e) <==> before.edges.contains(e) || exists|to: Seq<char>|
                    base_names@.contains(to) && reached@.contains_key(to) && e == #[trigger] import_edge(r, from@, to));
                if before.edges.contains(e) && !given.edges.contains(e) {
                    let k = choose|k: int| 0 <= k < i && imported_from(r, reached@, #[trigger] keys[k], e);
                    assert(imported_from(r, reached@, keys[k], e));
                }
                if builder@.edges.contains(e) && !before.edges.contains(e) {
                    if middle.edges.contains(e) {
                        let to = choose|to: Seq<char>|
                            base_names@.contains(to) && reached@.contains_key(to) && e == #[trigger] import_edge(r, from@, to);
                        assert(imports_either(r, from@, to));
                    } else {
                        let to = choose|to: Seq<char>|
                            target_names@.contains(to) && reached@.contains_key(to) && e == #[trigger] import_edge(r, from@, to);
                        assert(imports_either(r, from@, to));
                    }
                    assert(imported_from(r, reached@, keys[i as int], e));
                }
                if imported_from(r, reached@, keys[i as int], e) {
                    let to = choose|to: Seq<char>|
                        reached@.contains_key(to) && imports_either(r, from@, to) && e == #[trigger] import_edge(r, from@, to);
                    assert(base_names@.contains(to) || target_names@.contains(to));
                }
            }
        }
        i = i + 1;
    }
    proof {
        assert forall|e: EdgeView| #[trigger] builder@.edges.contains(e) <==> given.edges.contains(e) || is_import_edge(r, reached@, e) by {
            if exists|k: int| 0 <= k < n && imported_from(r, reached@, #[trigger] keys[k], e) {
                let k = choose|k: int| 0 <= k < n && imported_from(r, reached@, #[trigger] keys[k], e);
                let to = choose|to: Seq<char>|
                    reached@.contains_key(to) && imports_either(r, keys[k], to) && e == #[trigger] import_edge(r, keys[k], to);
                assert(keys.contains(keys[k]));
                assert(reached@.contains_key(keys[k]));
            }
            if is_import_edge(r, reached@, e) {
                let (from, to) = choose|from: Seq<char>, to: Seq<char>|
                    reached@.contains_key(from) && reached@.contains_key(to) && imports_either(r, from, to) && e == #[trigger] import_edge(r, from, to);
                assert(keys.contains(from));
                let k = choose|k: int| 0 <= k < keys.len() && keys[k] == from;
                assert(imported_from(r, reached@, keys[k], e));
            }
        }
    }
}

/// Whether a map holds the least of the numbers that options give each name.
pub open spec fn holds_least(depths: Map<Seq<char>, u32>, options: Set<(Seq<char>, u32)>) -> bool {
    &&& forall|p: Seq<char>| #[trigger] depths.contains_key(p) ==> options.contains((p, depths[p]))
    &&& forall|p: Seq<char>, d: u32| #[trigger] options.contains((p, d)) ==> depths.contains_key(p) && depths[p] <= d
}

/// Take one more option into account.
fn lower(depths: &mut TextMap<u32>, path: &str, depth: u32, Ghost(options): Ghost<Set<(Seq<char>, u32)>>)
    requires
        holds_least(old(depths)@, options),
    ensures
        holds_least(final(depths)@, options.insert((path@, depth))),
{
    let least: u32 = match depths.get(path) {
        Some(known) => if *known < depth {
            *known
        } else {
            depth
        },
        None => depth,
    };
    depths.insert(path.to_owned(), least);
}

/// One hop further.
pub open spec fn further(depth: u32) -> u32 {
    crate::result::one_more(depth)
}

fn holds_link(tests: &Vec<RelatedTest>, test: &str, link: TestLink) -> (r: bool)
    ensures
        r == test_views(tests@).contains((test@, link)),
{
    let ghost views = test_views(tests@);
    let mut i: usize = 0;
    while i < tests.len()
        invariant
            i <= tests.len(),
            views == test_views(tests@),
            forall|k: int| 0 <= k < i ==> #[trigger] views[k] != (test@, link),
        decreases tests.len() - i,
    {
        assert(views[i as int] == (tests@[i as int].file@, tests@[i as int].link));
        if tests[i].link == link && same_text(tests[i].file.as_str(), test) {
            assert(views.contains((test@, link)));
            return true;
        }
        i = i + 1;
    }
    false
}

/// Add the edges of some tests of a module, one after the other.
fn add_tests_of(
    builder: &mut GraphBuilder,
    depths: &mut TextMap<u32>,
    path: &str,
    depth: u32,
    listed: &Vec<RelatedTest>,
    base_tests: &Vec<RelatedTest>,
    target_tests: &Vec<RelatedTest>,
    Ghost(r): Ghost<RevisionsView>,
    Ghost(options): Ghost<Set<(Seq<char>, u32)>>,
) -> (after: Ghost<Set<(Seq<char>, u32)>>)
    requires
        old(builder).valid(),
        only_module_edges(r, old(builder)@),
        holds_least(old(depths)@, options),
        test_views(base_tests@) == tests_for(r.base, path@),
        test_views(target_tests@) == tests_for(r.target, path@),
    ensures
        final(builder).valid(),
        only_module_edges(r, final(builder)@),
        final(builder)@.nodes == old(builder)@.nodes,
        final(builder)@.roots == old(builder)@.roots,
        forall|e: EdgeView| #[trigger]
            final(builder)@.edges.contains(e) <==> old(builder)@.edges.contains(e) || exists|test: Seq<char>, link: TestLink|
                test_views(listed@).contains((test, link)) && e == #[trigger] test_edge(r, path@, test, link),
        holds_least(final(depths)@, after@),
        forall|o: (Seq<char>, u32)| #[trigger]
            after@.contains(o) <==> options.contains(o) || (o.1 == further(depth) && exists|link: TestLink| #[trigger]
                test_views(listed@).contains((o.0, link))),
{
    let ghost given = builder@;
    let ghost views = test_views(listed@);
    let ghost mut now = options;
    let further_depth: u32 = if depth < u32::MAX {
        depth + 1
    } else {
        depth
    };
    let mut i: usize = 0;
    while i < listed.len()
        invariant
            i <= listed.len(),
            views == test_views(listed@),
            further_depth == further(depth),
            test_views(base_tests@) == tests_for(r.base, path@),
            test_views(target_tests@) == tests_for(r.target, path@),
            builder.valid(),
            only_module_edges(r, builder@),
            builder@.nodes == given.nodes,
            builder@.roots == given.roots,
            holds_least(depths@, now),
            forall|e: EdgeView| #[trigger]
                builder@.edges.contains(e) <==> given.edges.contains(e) || exists|k: int|
                    0 <= k < i && e == test_edge(r, path@, (#[trigger] views[k]).0, views[k].1),
            forall|o: (Seq<char>, u32)| #[trigger]
                now.contains(o) <==> options.contains(o) || (o.1 == further(depth) && exists|k: int| 0 <= k < i && (#[trigger] views[k]).0 == o.0),
        decreases listed.len() - i,
    {
        let test = &listed[i];
        let name = test.file.as_str();
        let ghost before = builder@;
        let ghost was = now;
        assert(views[i as int] == (test.file@, test.link));
        let status = status_for(holds_link(base_tests, name, test.link), holds_link(target_tests, name, test.link));
        let edge = Edge {
            from: Node::module_id(name),
            to: Node::module_id(path),
            relation: Relation::TestedBy,
            status,
            resolution: match test.link {
                TestLink::Imports => Resolution::TestImportsModule,
                TestLink::Convention => Resolution::TestNameMatchesModule,
            },
            evidence: None,
        };
        assert(edge@ =~= test_edge(r, path@, name@, test.link));
        add_module_edge(builder, edge, Ghost(r));
        lower(depths, name, further_depth, Ghost(now));
        proof {
            now = was.insert((name@, further_depth));
            assert forall|e: EdgeView| #[trigger] builder@.edges.contains(e) <==> given.edges.contains(e) || exists|k: int|
                0 <= k < i + 1 && e == test_edge(r, path@, (#[trigger] views[k]).0, views[k].1) by {
                if before.edges.contains(e) && !given.edges.contains(e) {
                    let k = choose|k: int| 0 <= k < i && e == test_edge(r, path@, (#[trigger] views[k]).0, views[k].1);
                    assert(e == test_edge(r, path@, views[k].0, views[k].1));
                }
                if e == test_edge(r, path@, name@, test.link) {
                    assert(e == test_edge(r, path@, views[i as int].0, views[i as int].1));
                }
            }
            assert forall|o: (Seq<char>, u32)| #[trigger] now.contains(o) <==> options.contains(o) || (o.1 == further(depth) && exists|k: int|
                0 <= k < i + 1 && (#[trigger] views[k]).0 == o.0) by {
                if was.contains(o) && !options.contains(o) {
                    let k = choose|k: int| 0 <= k < i && (#[trigger] views[k]).0 == o.0;
                    assert(views[k].0 == o.0);
                }
                if o == (name@, further_depth) {
                    assert(views[i as int].0 == o.0);
                }
            }
        }
        i = i + 1;
    }
    proof {
        assert forall|e: EdgeView| #[trigger] builder@.edges.contains(e) <==> given.edges.contains(e) || exists|test: Seq<char>, link: TestLink|
            views.contains((test, link)) && e == #[trigger] test_edge(r, path@, test, link) by {
            if builder@.edges.contains(e) && !given.edges.contains(e) {
                let k = choose|k: int| 0 <= k < i && e == test_edge(r, path@, (#[trigger] views[k]).0, views[k].1);
                assert(views.contains((views[k].0, views[k].1)));
            }
            if exists|test: Seq<char>, link: TestLink| views.contains((test, link)) && e == #[trigger] test_edge(r, path@, test, link) {
                let (test, link) = choose|test: Seq<char>, link: TestLink|
                    views.contains((test, link)) && e == #[trigger] test_edge(r, path@, test, link);
                let k = choose|k: int| 0 <= k < views.len() && views[k] == (test, link);
                assert(e == test_edge(r, path@, views[k].0, views[k].1));
            }
        }
        assert forall|o: (Seq<char>, u32)| #[trigger] now.contains(o) <==> options.contains(o) || (o.1 == further(depth) && exists|link: TestLink|
            #[trigger] views.contains((o.0, link))) by {
            if now.contains(o) && !options.contains(o) {
                let k = choose|k: int| 0 <= k < i && (#[trigger] views[k]).0 == o.0;
                assert(views.contains((o.0, views[k].1)));
            }
            if exists|link: TestLink| #[trigger] views.contains((o.0, link)) {
                let link = choose|link: TestLink| #[trigger] views.contains((o.0, link));
                let k = choose|k: int| 0 <= k < views.len() && views[k] == (o.0, link);
                assert(views[k].0 == o.0);
            }
        }
    }
    Ghost(now)
}

/// The numbers of hops that modules and, where they are followed, tests of
/// modules are reached by.
pub open spec fn hop_options(r: RevisionsView, tests: bool, reached: Map<Seq<char>, u32>) -> Set<(Seq<char>, u32)> {
    Set::new(
        |o: (Seq<char>, u32)|
            (reached.contains_key(o.0) && o.1 == reached[o.0]) || (tests && exists|path: Seq<char>, link: TestLink|
                reached.contains_key(path) && o.1 == further(reached[path]) && #[trigger] links_either(r, path, o.0, link)),
    )
}

/// Attach the tests each reached module has, from both revisions.
///
/// Membership is decided per resolution: a test that imported a module in one
/// revision and merely shares its name in the other loses one edge and keeps
/// the other.
#[verifier::spinoff_prover]
#[verifier::rlimit(60)]
fn add_test_edges(builder: &mut GraphBuilder, depths: &mut TextMap<u32>, revisions: &Revisions, reached: &Reached)
    requires
        old(builder).valid(),
        only_module_edges(revisions@, old(builder)@),
        holds_least(old(depths)@, hop_options(revisions@, false, reached@)),
    ensures
        final(builder).valid(),
        only_module_edges(revisions@, final(builder)@),
        final(builder)@.nodes == old(builder)@.nodes,
        final(builder)@.roots == old(builder)@.roots,
        forall|e: EdgeView| #[trigger]
            final(builder)@.edges.contains(e) <==> old(builder)@.edges.contains(e) || is_test_edge(revisions@, reached@, e),
        holds_least(final(depths)@, hop_options(revisions@, true, reached@)),
{
    let ghost r = revisions@;
    let ghost given = builder@;
    let ghost first = hop_options(r, false, reached@);
    let ghost mut options = first;
    let n: usize = reached.len();
    let ghost keys = reached.keys();
    let mut i: usize = 0;
    while i < n
        invariant
            n == keys.len(),
            keys == reached.keys(),
            reached.ordered(),
            i <= n,
            r == revisions@,
            builder.valid(),
            only_module_edges(r, builder@),
            builder@.nodes == given.nodes,
            builder@.roots == given.roots,
            holds_least(depths@, options),
            forall|e: EdgeView| #[trigger]
                builder@.edges.contains(e) <==> given.edges.contains(e) || exists|k: int, test: Seq<char>, link: TestLink|
                    0 <= k < i && links_either(r, keys[k], test, link) && e == #[trigger] test_edge(r, keys[k], test, link),
            forall|o: (Seq<char>, u32)| #[trigger]
                options.contains(o) <==> first.contains(o) || exists|k: int, link: TestLink|
                    0 <= k < i && o.1 == further(reached@[keys[k]]) && #[trigger] links_either(r, keys[k], o.0, link),
        decreases n - i,
    {
        let path = reached.key_at(i);
        let depth: u32 = *reached.value_at(i);
        let ghost before = builder@;
        let ghost was = options;
        let base_tests = for_file(revisions.base, path).related_tests;
        let target_tests = for_file(revisions.target, path).related_tests;
        let after = add_tests_of(builder, depths, path, depth, &base_tests, &base_tests, &target_tests, Ghost(r), Ghost(options));
        let ghost middle = builder@;
        let ghost half = after@;
        let after = add_tests_of(builder, depths, path, depth, &target_tests, &base_tests, &target_tests, Ghost(r), Ghost(half));
        proof {
            options = after@;
            assert(path@ == keys[i as int]);
            assert forall|e: EdgeView| #[trigger] builder@.edges.contains(e) <==> given.edges.contains(e) || exists|k: int, test: Seq<char>, link: TestLink|
                0 <= k < i + 1 && links_either(r, keys[k], test, link) && e == #[trigger] test_edge(r, keys[k], test, link) by {
                assert(middle.edges.contains(e) <==> before.edges.contains(e) || exists|test: Seq<char>, link: TestLink|
                    test_views(base_tests@).contains((test, link)) && e == #[trigger] test_edge(r, path@, test, link));
                if before.edges.contains(e) && !given.edges.contains(e) {
                    let (k, test, link) = choose|k: int, test: Seq<char>, link: TestLink|
                        0 <= k < i && links_either(r, keys[k], test, link) && e == #[trigger] test_edge(r, keys[k], test, link);
                    assert(e == test_edge(r, keys[k], test, link));
                }
                if builder@.edges.contains(e) && !before.edges.contains(e) {
                    if middle.edges.contains(e) {
                        let (test, link) = choose|test: Seq<char>, link: TestLink|
                            test_views(base_tests@).contains((test, link)) && e == #[trigger] test_edge(r, path@, test, link);
                        assert(links_either(r, keys[i as int], test, link));
                        assert(e == test_edge(r, keys[i as int], test, link));
                    } else {
                        let (test, link) = choose|test: Seq<char>, link: TestLink|
                            test_views(target_tests@).contains((test, link)) && e == #[trigger] test_edge(r, path@, test, link);
                        assert(links_either(r, keys[i as int], test, link));
                        assert(e == test_edge(r, keys[i as int], test, link));
                    }
                }
                if exists|k: int, test: Seq<char>, link: TestLink|
                    0 <= k < i + 1 && links_either(r, keys[k], test, link) && e == #[trigger] test_edge(r, keys[k], test, link) {
                    let (k, test, link) = choose|k: int, test: Seq<char>, link: TestLink|
                        0 <= k < i + 1 && links_either(r, keys[k], test, link) && e == #[trigger] test_edge(r, keys[k], test, link);
                    if k < i {
                        assert(before.edges.contains(e));
                    } else {
                        assert(test_views(base_tests@).contains((test, link)) || test_views(target_tests@).contains((test, link)));
                    }
                }
            }
            assert forall|o: (Seq<char>, u32)| #[trigger] options.contains(o) <==> first.contains(o) || exists|k: int, link: TestLink|
                0 <= k < i + 1 && o.1 == further(reached@[keys[k]]) && #[trigger] links_either(r, keys[k], o.0, link) by {
                assert(half.contains(o) <==> was.contains(o) || (o.1 == further(depth) && exists|link: TestLink| #[trigger]
                    test_views(base_tests@).contains((o.0, link))));
                if was.contains(o) && !first.contains(o) {
                    let (k, link) = choose|k: int, link: TestLink|
                        0 <= k < i && o.1 == further(reached@[keys[k]]) && #[trigger] links_either(r, keys[k], o.0, link);
                    assert(links_either(r, keys[k], o.0, link));
                }
                if options.contains(o) && !was.contains(o) {
                    if half.contains(o) {
                        let link = choose|link: TestLink| #[trigger] test_views(base_tests@).contains((o.0, link));
                        assert(links_either(r, keys[i as int], o.0, link));
                    } else {
                        let link = choose|link: TestLink| #[trigger] test_views(target_tests@).contains((o.0, link));
                        assert(links_either(r, keys[i as int], o.0, link));
                    }
                }
                if exists|k: int, link: TestLink|
                    0 <= k < i + 1 && o.1 == further(reached@[keys[k]]) && #[trigger] links_either(r, keys[k], o.0, link) {
                    let (k, link) = choose|k: int, link: TestLink|
                        0 <= k < i + 1 && o.1 == further(reached@[keys[k]]) && #[trigger] links_either(r, keys[k], o.0, link);
                    if k < i {
                        assert(was.contains(o));
                    } else {
                        assert(test_views(base_tests@).contains((o.0, link)) || test_views(target_tests@).contains((o.0, link)));
                    }
                }
            }
        }
        i = i + 1;
    }
    proof {
        assert forall|p: Seq<char>| #[trigger] reached@.contains_key(p) <==> keys.contains(p) by {}
        assert forall|e: EdgeView| #[trigger] builder@.edges.contains(e) <==> given.edges.contains(e) || is_test_edge(r, reached@, e) by {
            if builder@.edges.contains(e) && !given.edges.contains(e) {
                let (k, test, link) = choose|k: int, test: Seq<char>, link: TestLink|
                    0 <= k < i && links_either(r, keys[k], test, link) && e == #[trigger] test_edge(r, keys[k], test, link);
                assert(keys.contains(keys[k]));
                assert(reached@.contains_key(keys[k]));
            }
            if is_test_edge(r, reached@, e) {
                let (path, test, link) = choose|path: Seq<char>, test: Seq<char>, link: TestLink|
                    reached@.contains_key(path) && links_either(r, path, test, link) && e == #[trigger] test_edge(r, path, test, link);
                assert(keys.contains(path));
                let k = choose|k: int| 0 <= k < keys.len() && keys[k] == path;
                assert(e == test_edge(r, keys[k], test, link));
            }
        }
        assert forall|o: (Seq<char>, u32)| options.contains(o) <==> hop_options(r, true, reached@).contains(o) by {
            if options.contains(o) && !first.contains(o) {
                let (k, link) = choose|k: int, link: TestLink|
                    0 <= k < i && o.1 == further(reached@[keys[k]]) && #[trigger] links_either(r, keys[k], o.0, link);
                assert(keys.contains(keys[k]));
                assert(reached@.contains_key(keys[k]));
            }
            if hop_options(r, true, reached@).contains(o) && !first.contains(o) {
                let (path, link) = choose|path: Seq<char>, link: TestLink|
                    reached@.contains_key(path) && o.1 == further(reached@[path]) && #[trigger] links_either(r, path, o.0, link);
                assert(keys.contains(path));
                let k = choose|k: int| 0 <= k < keys.len() && keys[k] == path;
                assert(links_either(r, keys[k], o.0, link));
            }
        }
        assert(options =~= hop_options(r, true, reached@));
    }
}

/// Whether a revision forwards names from one module out of another.
fn forwards(index: &ImportIndex, symbols: &SymbolIndex, path: &str, target: &str) -> (r: bool)
    ensures
        r == forwards_from(index@, symbols@, path@, target@),
{
    let Some(file) = symbols.file(path) else {
        return false;
    };
    let modules = &file.re_exported_modules;
    let n: usize = modules.len();
    let ghost keys = modules.keys();
    let ghost all = symbols@[path@].re_exported_modules;
    let mut i: usize = 0;
    while i < n
        invariant
            n == keys.len(),
            keys == modules.keys(),
            keys.to_set() == all,
            symbols@.contains_key(path@),
            all == symbols@[path@].re_exported_modules,
            i <= n,
            forall|k: int|
                0 <= k < i ==> !(index@.targets.contains_key((path@, #[trigger] keys[k])) && index@.targets[(path@, keys[k])] == target@),
        decreases n - i,
    {
        let specifier = modules.key_at(i);
        if let Some(found) = index.resolve_specifier(path, specifier) {
            if same_text(found, target) {
                proof {
                    assert(keys.contains(specifier@));
                    assert(all.contains(specifier@));
                }
                return true;
            }
        }
        i = i + 1;
    }
    proof {
        if forwards_from(index@, symbols@, path@, target@) {
            let specifier = choose|specifier: Seq<char>| #[trigger]
                all.contains(specifier) && index@.targets.contains_key((path@, specifier)) && index@.targets[(path@, specifier)] == target@;
            assert(keys.contains(specifier));
            let k = choose|k: int| 0 <= k < keys.len() && keys[k] == specifier;
            assert(keys[k] == specifier);
        }
    }
    false
}

/// Whether an edge is that of a re-export that one revision has, from a module
/// to a reached one.
spec fn forwarded_from(
    r: RevisionsView,
    index: IndexView,
    symbols: Map<Seq<char>, FileSymbolsView>,
    reached: Map<Seq<char>, u32>,
    path: Seq<char>,
    e: EdgeView,
) -> bool {
    exists|target: Seq<char>|
        reached.contains_key(target) && forwards_from(index, symbols, path, target) && e == #[trigger] forward_edge(r, path, target)
}

/// Add the edges of what one revision forwards out of a module.
fn add_forwards_of(builder: &mut GraphBuilder, revisions: &Revisions, reached: &Reached, path: &str, index: &ImportIndex, symbols: &SymbolIndex)
    requires
        old(builder).valid(),
        only_module_edges(revisions@, old(builder)@),
    ensures
        final(builder).valid(),
        only_module_edges(revisions@, final(builder)@),
        final(builder)@.nodes == old(builder)@.nodes,
        final(builder)@.roots == old(builder)@.roots,
        forall|e: EdgeView| #[trigger]
            final(builder)@.edges.contains(e) <==> old(builder)@.edges.contains(e) || forwarded_from(
                revisions@,
                index@,
                symbols@,
                reached@,
                path@,
                e,
            ),
{
    let ghost r = revisions@;
    let ghost given = builder@;
    let Some(file) = symbols.file(path) else {
        assert(forall|e: EdgeView| !#[trigger] forwarded_from(r, index@, symbols@, reached@, path@, e));
        return;
    };
    let modules = &file.re_exported_modules;
    let n: usize = modules.len();
    let ghost keys = modules.keys();
    let ghost all = symbols@[path@].re_exported_modules;
    let ghost targets = index@.targets;
    let mut i: usize = 0;
    while i < n
        invariant
            n == keys.len(),
            keys == modules.keys(),
            i <= n,
            r == revisions@,
            targets == index@.targets,
            builder.valid(),
            only_module_edges(r, builder@),
            builder@.nodes == given.nodes,
            builder@.roots == given.roots,
            forall|e: EdgeView| #[trigger]
                builder@.edges.contains(e) <==> given.edges.contains(e) || exists|k: int|
                    0 <= k < i && targets.contains_key((path@, #[trigger] keys[k])) && reached@.contains_key(targets[(path@, keys[k])]) && e
                        == forward_edge(r, path@, targets[(path@, keys[k])]),
        decreases n - i,
    {
        let specifier = modules.key_at(i);
        let ghost before = builder@;
        if let Some(target) = index.resolve_specifier(path, specifier) {
            if reached.contains_key(target) {
                let status = status_for(
                    forwards(revisions.base, revisions.base_symbols, path, target),
                    forwards(revisions.target, revisions.target_symbols, path, target),
                );
                let edge = Edge {
                    from: Node::module_id(path),
                    to: Node::module_id(target),
                    relation: Relation::ReExports,
                    status,
                    resolution: Resolution::ExportClause,
                    evidence: import_evidence(revisions, path, target, status),
                };
                assert(edge@ =~= forward_edge(r, path@, target@));
                add_module_edge(builder, edge, Ghost(r));
            }
        }
        proof {
            assert forall|e: EdgeView| #[trigger] builder@.edges.contains(e) <==> given.edges.contains(e) || exists|k: int|
                0 <= k < i + 1 && targets.contains_key((path@, #[trigger] keys[k])) && reached@.contains_key(targets[(path@, keys[k])]) && e
                    == forward_edge(r, path@, targets[(path@, keys[k])]) by {
                if before.edges.contains(e) && !given.edges.contains(e) {
                    let k = choose|k: int|
                        0 <= k < i && targets.contains_key((path@, #[trigger] keys[k])) && reached@.contains_key(targets[(path@, keys[k])]) && e
                            == forward_edge(r, path@, targets[(path@, keys[k])]);
                    assert(targets.contains_key((path@, keys[k])));
                }
                if builder@.edges.contains(e) && !before.edges.contains(e) {
                    assert(targets.contains_key((path@, keys[i as int])));
                }
            }
        }
        i = i + 1;
    }
    proof {
        assert(keys.to_set() == all);
        assert forall|e: EdgeView| #[trigger] builder@.edges.contains(e) <==> given.edges.contains(e) || forwarded_from(
            r,
            index@,
            symbols@,
            reached@,
            path@,
            e,
        ) by {
            if builder@.edges.contains(e) && !given.edges.contains(e) {
                let k = choose|k: int|
                    0 <= k < n && targets.contains_key((path@, #[trigger] keys[k])) && reached@.contains_key(targets[(path@, keys[k])]) && e
                        == forward_edge(r, path@, targets[(path@, keys[k])]);
                assert(keys.contains(keys[k]));
                assert(all.contains(keys[k]));
                assert(forwards_from(index@, symbols@, path@, targets[(path@, keys[k])]));
            }
            if forwarded_from(r, index@, symbols@, reached@, path@, e) {
                let target = choose|target: Seq<char>|
                    reached@.contains_key(target) && forwards_from(index@, symbols@, path@, target) && e == #[trigger] forward_edge(r, path@, target);
                let specifier = choose|specifier: Seq<char>| #[trigger]
                    all.contains(specifier) && targets.contains_key((path@, specifier)) && targets[(path@, specifier)] == target;
                assert(keys.contains(specifier));
                let k = choose|k: int| 0 <= k < keys.len() && keys[k] == specifier;
                assert(targets.contains_key((path@, keys[k])));
            }
        }
    }
}

/// Add a `re_exports` edge for every module a reached module forwards from.
///
/// A re-export breaks callers when it goes away. Both ends must be reached, for
/// the same reason an import edge needs both.
fn add_forward_edges(builder: &mut GraphBuilder, revisions: &Revisions, reached: &Reached)
    requires
        old(builder).valid(),
        only_module_edges(revisions@, old(builder)@),
    ensures
        final(builder).valid(),
        only_module_edges(revisions@, final(builder)@),
        final(builder)@.nodes == old(builder)@.nodes,
        final(builder)@.roots == old(builder)@.roots,
        forall|e: EdgeView| #[trigger]
            final(builder)@.edges.contains(e) <==> old(builder)@.edges.contains(e) || is_forward_edge(revisions@, reached@, e),
{
    let ghost r = revisions@;
    let ghost given = builder@;
    let n: usize = reached.len();
    let ghost keys = reached.keys();
    let ghost from_base = |path: Seq<char>, e: EdgeView| forwarded_from(r, r.base, r.base_symbols, reached@, path, e);
    let ghost from_target = |path: Seq<char>, e: EdgeView| forwarded_from(r, r.target, r.target_symbols, reached@, path, e);
    let mut i: usize = 0;
    while i < n
        invariant
            n == keys.len(),
            keys == reached.keys(),
            i <= n,
            r == revisions@,
            from_base == |path: Seq<char>, e: EdgeView| forwarded_from(r, r.base, r.base_symbols, reached@, path, e),
            from_target == |path: Seq<char>, e: EdgeView| forwarded_from(r, r.target, r.target_symbols, reached@, path, e),
            builder.valid(),
            only_module_edges(r, builder@),
            builder@.nodes == given.nodes,
            builder@.roots == given.roots,
            forall|e: EdgeView| #[trigger]
                builder@.edges.contains(e) <==> given.edges.contains(e) || exists|k: int|
                    0 <= k < i && (from_base(#[trigger] keys[k], e) || from_target(keys[k], e)),
        decreases n - i,
    {
        let path = reached.key_at(i);
        let ghost before = builder@;
        add_forwards_of(builder, revisions, reached, path, revisions.base, revisions.base_symbols);
        let ghost middle = builder@;
        add_forwards_of(builder, revisions, reached, path, revisions.target, revisions.target_symbols);
        proof {
            assert forall|e: EdgeView| #[trigger] builder@.edges.contains(e) <==> given.edges.contains(e) || exists|k: int|
                0 <= k < i + 1 && (from_base(#[trigger] keys[k], e) || from_target(keys[k], e)) by {
                assert(middle.edges.contains(e) <==> before.edges.contains(e) || from_base(path@, e));
                if before.edges.contains(e) && !given.edges.contains(e) {
                    let k = choose|k: int| 0 <= k < i && (from_base(#[trigger] keys[k], e) || from_target(keys[k], e));
                    assert(from_base(keys[k], e) || from_target(keys[k], e));
                }
                if from_base(path@, e) || from_target(path@, e) {
                    assert(from_base(keys[i as int], e) || from_target(keys[i as int], e));
                }
            }
        }
        i = i + 1;
    }
    proof {
        assert forall|e: EdgeView| #[trigger] builder@.edges.contains(e) <==> given.edges.contains(e) || is_forward_edge(r, reached@, e) by {
            if builder@.edges.contains(e) && !given.edges.contains(e) {
                let k = choose|k: int| 0 <= k < n && (from_base(#[trigger] keys[k], e) || from_target(keys[k], e));
                assert(keys.contains(keys[k]));
                assert(reached@.contains_key(keys[k]));
                if from_base(keys[k], e) {
                    let target = choose|target: Seq<char>|
                        reached@.contains_key(target) && forwards_from(r.base, r.base_symbols, keys[k], target) && e == #[trigger] forward_edge(
                            r,
                            keys[k],
                            target,
                        );
                    assert(forwards_either(r, keys[k], target));
                } else {
                    let target = choose|target: Seq<char>|
                        reached@.contains_key(target) && forwards_from(r.target, r.target_symbols, keys[k], target) && e == #[trigger] forward_edge(
                            r,
                            keys[k],
                            target,
                        );
                    assert(forwards_either(r, keys[k], target));
                }
            }
            if is_forward_edge(r, reached@, e) {
                let (path, target) = choose|path: Seq<char>, target: Seq<char>|
                    reached@.contains_key(path) && reached@.contains_key(target) && forwards_either(r, path, target) && e == #[trigger] forward_edge(
                        r,
                        path,
                        target,
                    );
                assert(keys.contains(path));
                let k = choose|k: int| 0 <= k < keys.len() && keys[k] == path;
                assert(from_base(keys[k], e) || from_target(keys[k], e));
            }
        }
    }
}

/// The fewest hops that options give a name.
pub open spec fn least_hops(options: Set<(Seq<char>, u32)>, path: Seq<char>) -> u32 {
    choose|d: u32| options.contains((path, d)) && forall|e: u32| #[trigger] options.contains((path, e)) ==> d <= e
}

/// The path inside a module identity.
pub open spec fn path_in(id: Seq<char>) -> Seq<char> {
    id.skip("module:"@.len() as int)
}

/// The nodes of the modules that options name, each with the fewest hops.
pub open spec fn module_nodes(files: Seq<FileView>, options: Set<(Seq<char>, u32)>) -> Map<Seq<char>, NodeView> {
    Map::new(
        |id: Seq<char>| id == module_identity(path_in(id)) && exists|d: u32| #[trigger] options.contains((path_in(id), d)),
        |id: Seq<char>| module_facts(files, path_in(id), least_hops(options, path_in(id))),
    )
}

/// The modules that a walk reaches from roots: along imports where the request
/// follows them, else the roots alone.
pub open spec fn reached_modules(r: RevisionsView, roots: Seq<Seq<char>>, direction: Direction, relations: Seq<Relation>, depth: u32) -> Map<
    Seq<char>,
    u32,
> {
    let hops = if relations.contains(Relation::Imports) {
        depth as nat
    } else {
        0
    };
    choose|reached: Map<Seq<char>, u32>| #[trigger] is_reach(reached, roots.to_set(), hops_along(import_way(r), direction), hops)
}

/// The identities of roots.
pub open spec fn root_identities(roots: Seq<Seq<char>>) -> Set<Seq<char>> {
    Set::new(|id: Seq<char>| exists|i: int| 0 <= i < roots.len() && id == module_identity(#[trigger] roots[i]))
}

/// The graph of modules around roots, before a view narrows it.
pub open spec fn module_graph(
    files: Seq<FileView>,
    r: RevisionsView,
    roots: Seq<Seq<char>>,
    direction: Direction,
    relations: Seq<Relation>,
    depth: u32,
) -> BuilderView {
    let reached = reached_modules(r, roots, direction, relations, depth);
    BuilderView {
        nodes: module_nodes(files, hop_options(r, relations.contains(Relation::TestedBy), reached)),
        edges: Set::new(|e: EdgeView| is_module_edge(r, relations, reached, e)),
        roots: root_identities(roots),
    }
}

proof fn lemma_path_in(path: Seq<char>)
    ensures
        path_in(module_identity(path)) == path,
{
    assert(path_in(module_identity(path)) =~= path);
}

/// Add the node of every path that depths name.
fn add_module_nodes(builder: &mut GraphBuilder, result: &AnalysisResult, depths: &TextMap<u32>, Ghost(options): Ghost<Set<(Seq<char>, u32)>>)
    requires
        old(builder).valid(),
        old(builder)@.nodes == Map::<Seq<char>, NodeView>::empty(),
        holds_least(depths@, options),
    ensures
        final(builder).valid(),
        final(builder)@ == (BuilderView { nodes: module_nodes(result@.files, options), ..old(builder)@ }),
{
    let ghost given = builder@;
    let ghost files = result@.files;
    let n: usize = depths.len();
    let ghost keys = depths.keys();
    let mut i: usize = 0;
    while i < n
        invariant
            n == keys.len(),
            keys == depths.keys(),
            depths.ordered(),
            i <= n,
            files == result@.files,
            builder.valid(),
            builder@.edges == given.edges,
            builder@.roots == given.roots,
            forall|id: Seq<char>| #[trigger]
                builder@.nodes.contains_key(id) <==> exists|k: int| 0 <= k < i && id == module_identity(#[trigger] keys[k]),
            forall|k: int| 0 <= k < i ==> builder@.nodes[module_identity(#[trigger] keys[k])] == module_facts(files, keys[k], depths@[keys[k]]),
        decreases n - i,
    {
        let path = depths.key_at(i);
        let depth: u32 = *depths.value_at(i);
        let ghost before = builder@;
        let ghost id = module_identity(path@);
        proof {
            if before.nodes.contains_key(id) {
                let k = choose|k: int| 0 <= k < i && id == module_identity(#[trigger] keys[k]);
                lemma_identity_injective(path@, keys[k]);
                crate::collections::lemma_ascending_unique(keys, k, i as int);
            }
        }
        builder.add_node(module_node(result, path, depth));
        proof {
            assert(builder@.nodes == before.nodes.insert(id, module_facts(files, path@, depth)));
            assert forall|x: Seq<char>| #[trigger] builder@.nodes.contains_key(x) <==> exists|k: int|
                0 <= k < i + 1 && x == module_identity(#[trigger] keys[k]) by {
                if before.nodes.contains_key(x) {
                    let k = choose|k: int| 0 <= k < i && x == module_identity(#[trigger] keys[k]);
                    assert(x == module_identity(keys[k]));
                }
                if x == id {
                    assert(x == module_identity(keys[i as int]));
                }
            }
            assert forall|k: int| 0 <= k < i + 1 implies builder@.nodes[module_identity(#[trigger] keys[k])] == module_facts(
                files,
                keys[k],
                depths@[keys[k]],
            ) by {
                if k < i {
                    if module_identity(keys[k]) == id {
                        lemma_identity_injective(path@, keys[k]);
                        crate::collections::lemma_ascending_unique(keys, k, i as int);
                    }
                }
            }
        }
        i = i + 1;
    }
    proof {
        let wanted = module_nodes(files, options);
        assert forall|p: Seq<char>| #[trigger] depths@.contains_key(p) implies least_hops(options, p) == depths@[p] by {
            let d = depths@[p];
            assert(options.contains((p, d)) && forall|e: u32| #[trigger] options.contains((p, e)) ==> d <= e);
            let l = least_hops(options, p);
            assert(options.contains((p, l)) && forall|e: u32| #[trigger] options.contains((p, e)) ==> l <= e);
        }
        assert forall|id: Seq<char>| builder@.nodes.contains_key(id) <==> wanted.contains_key(id) by {
            if builder@.nodes.contains_key(id) {
                let k = choose|k: int| 0 <= k < n && id == module_identity(#[trigger] keys[k]);
                lemma_path_in(keys[k]);
                assert(keys.contains(keys[k]));
                assert(depths@.contains_key(keys[k]));
                assert(options.contains((path_in(id), depths@[keys[k]])));
            }
            if wanted.contains_key(id) {
                let d = choose|d: u32| #[trigger] options.contains((path_in(id), d));
                assert(depths@.contains_key(path_in(id)));
                assert(keys.contains(path_in(id)));
                let k = choose|k: int| 0 <= k < keys.len() && keys[k] == path_in(id);
                assert(id == module_identity(keys[k]));
            }
        }
        assert forall|id: Seq<char>| builder@.nodes.contains_key(id) implies builder@.nodes[id] == wanted[id] by {
            let k = choose|k: int| 0 <= k < n && id == module_identity(#[trigger] keys[k]);
            lemma_path_in(keys[k]);
            assert(keys.contains(keys[k]));
            assert(depths@.contains_key(keys[k]));
            assert(wanted.contains_key(id));
        }
        assert(builder@.nodes =~= wanted);
    }
}

fn copy_depths(reached: &Reached, Ghost(r): Ghost<RevisionsView>) -> (out: TextMap<u32>)
    ensures
        holds_least(out@, hop_options(r, false, reached@)),
{
    let n: usize = reached.len();
    let ghost keys = reached.keys();
    let mut out: TextMap<u32> = TextMap::new();
    let mut i: usize = 0;
    while i < n
        invariant
            n == keys.len(),
            keys == reached.keys(),
            reached.ordered(),
            i <= n,
            forall|p: Seq<char>| #[trigger] out@.contains_key(p) <==> keys.take(i as int).contains(p),
            forall|p: Seq<char>| #[trigger] out@.contains_key(p) ==> out@[p] == reached@[p],
        decreases n - i,
    {
        let path = reached.key_at(i);
        proof {
            assert(keys.take(i + 1) =~= keys.take(i as int).push(path@));
            crate::collections::lemma_push_contains(keys.take(i as int), path@);
        }
        out.insert(path.to_owned(), *reached.value_at(i));
        i = i + 1;
    }
    proof {
        assert(keys.take(n as int) =~= keys);
        let options = hop_options(r, false, reached@);
        assert forall|p: Seq<char>| #[trigger] out@.contains_key(p) implies options.contains((p, out@[p])) by {
            assert(keys.contains(p));
            assert(reached@.contains_key(p));
        }
        assert forall|p: Seq<char>, d: u32| #[trigger] options.contains((p, d)) implies out@.contains_key(p) && out@[p] <= d by {
            assert(reached@.contains_key(p) && d == reached@[p]);
            assert(keys.contains(p));
            assert(out@.contains_key(p) <==> keys.take(n as int).contains(p));
        }
    }
    out
}

pub(crate) fn holds_relation(relations: &Vec<Relation>, wanted: Relation) -> (r: bool)
    ensures
        r == relations@.contains(wanted),
{
    let mut i: usize = 0;
    while i < relations.len()
        invariant
            i <= relations.len(),
            forall|k: int| 0 <= k < i ==> #[trigger] relations@[k] != wanted,
        decreases relations.len() - i,
    {
        if relations[i] == wanted {
            return true;
        }
        i = i + 1;
    }
    false
}

/// How many files of a scope had their imports read only up to the scan limit,
/// on a side that a view reports.
pub open spec fn truncated_in(r: RevisionsView, view: View, side: Side, scope: Set<Seq<char>>) -> nat {
    if view_has_side(view, side) {
        saturated(picked(listed(scope), read_in_part(index_on(r, side).truncated)).len()) as nat
    } else {
        0
    }
}

/// How many specifiers of a scope named nothing, on a side that a view reports.
pub open spec fn unresolved_in(r: RevisionsView, view: View, side: Side, scope: Set<Seq<char>>) -> nat {
    if view_has_side(view, side) {
        saturated(missed_by(index_on(r, side).misses, listed(scope))) as nat
    } else {
        0
    }
}

/// What is lacking in the scopes that each side was examined in.
pub open spec fn index_gaps(r: RevisionsView, view: View, base_scope: Set<Seq<char>>, target_scope: Set<Seq<char>>) -> CompletenessView {
    CompletenessView {
        scan_truncated_files: saturated(truncated_in(r, view, Side::Base, base_scope) + truncated_in(r, view, Side::Target, target_scope)),
        unresolved_specifiers: saturated(unresolved_in(r, view, Side::Base, base_scope) + unresolved_in(r, view, Side::Target, target_scope)),
        ..nothing_lacks()
    }
}

fn added(a: u32, b: u32) -> (r: u32)
    ensures
        r == saturated(a as nat + b as nat),
{
    if b > u32::MAX - a {
        u32::MAX
    } else {
        a + b
    }
}

/// Completeness of named source-file scopes on the relevant revision sides.
fn index_completeness(revisions: &Revisions, view: View, base_scope: &TextSet, target_scope: &TextSet) -> (r: Completeness)
    ensures
        r@ == index_gaps(revisions@, view, base_scope@, target_scope@),
{
    let mut out = Completeness::default();
    if view_includes_side(view, Side::Base) {
        out.scan_truncated_files = revisions.base.truncated_files_in(base_scope);
        out.unresolved_specifiers = revisions.base.unresolved_specifiers_in(base_scope);
    }
    if view_includes_side(view, Side::Target) {
        out.scan_truncated_files = added(out.scan_truncated_files, revisions.target.truncated_files_in(target_scope));
        out.unresolved_specifiers = added(out.unresolved_specifiers, revisions.target.unresolved_specifiers_in(target_scope));
    }
    assert(out@ =~= index_gaps(revisions@, view, base_scope@, target_scope@));
    out
}

fn names_of(reached: &Reached) -> (r: TextSet)
    ensures
        r@ == reached@.dom(),
{
    let n: usize = reached.len();
    let ghost keys = reached.keys();
    let mut out = TextSet::new();
    let mut i: usize = 0;
    while i < n
        invariant
            n == keys.len(),
            keys == reached.keys(),
            i <= n,
            forall|p: Seq<char>| #[trigger] out@.contains(p) <==> keys.take(i as int).contains(p),
        decreases n - i,
    {
        proof {
            assert(keys.take(i + 1) =~= keys.take(i as int).push(keys[i as int]));
            crate::collections::lemma_push_contains(keys.take(i as int), keys[i as int]);
        }
        out.insert(reached.key_at(i).to_owned());
        i = i + 1;
    }
    proof {
        assert(keys.take(n as int) =~= keys);
        assert forall|p: Seq<char>| out@.contains(p) <==> reached@.dom().contains(p) by {
            assert(reached@.contains_key(p) <==> keys.contains(p));
        }
        assert(out@ =~= reached@.dom());
    }
    out
}

/// The graph of modules that a request asks for, before a view narrows it.
pub open spec fn modules_around(files: Seq<FileView>, r: RevisionsView, request: RequestView) -> BuilderView {
    module_graph(files, r, root_paths_of(files, request.roots), request.direction, request.relations, request.depth)
}

/// What is lacking in the modules that a request's walk examined.
pub open spec fn module_gaps(files: Seq<FileView>, r: RevisionsView, request: RequestView) -> CompletenessView {
    let scope = reached_modules(r, root_paths_of(files, request.roots), request.direction, request.relations, request.depth).dom();
    index_gaps(r, request.view, scope, scope)
}

/// Build the graph of modules around the request's roots.
fn module_rooted(result: &AnalysisResult, revisions: &Revisions, request: &Request) -> (r: (GraphBuilder, Completeness))
    ensures
        r.0.valid(),
        r.0@ == modules_around(result@.files, revisions@, request@),
        r.1@ == module_gaps(result@.files, revisions@, request@),
{
    let ghost r = revisions@;
    let ghost relations = request.relations@;
    let roots = root_paths(result, request.roots);
    let ghost names = texts(roots@);
    let mut builder = GraphBuilder::new();
    let mut i: usize = 0;
    while i < roots.len()
        invariant
            i <= roots.len(),
            names == texts(roots@),
            builder.valid(),
            builder@.nodes == Map::<Seq<char>, NodeView>::empty(),
            builder@.edges == Set::<EdgeView>::empty(),
            forall|id: Seq<char>| #[trigger]
                builder@.roots.contains(id) <==> exists|k: int| 0 <= k < i && id == module_identity(#[trigger] names[k]),
        decreases roots.len() - i,
    {
        let ghost before = builder@;
        assert(names[i as int] == roots@[i as int]@);
        builder.add_root(Node::module_id(roots[i].as_str()));
        proof {
            assert forall|id: Seq<char>| #[trigger] builder@.roots.contains(id) <==> exists|k: int|
                0 <= k < i + 1 && id == module_identity(#[trigger] names[k]) by {
                if before.roots.contains(id) {
                    let k = choose|k: int| 0 <= k < i && id == module_identity(#[trigger] names[k]);
                    assert(id == module_identity(names[k]));
                }
                if id == module_identity(names[i as int]) {
                    assert(id == module_identity(names[i as int]));
                }
            }
        }
        i = i + 1;
    }
    assert(builder@.roots =~= root_identities(names));
    let follows_imports = holds_relation(request.relations, Relation::Imports);
    let depth: u32 = if follows_imports {
        request.depth
    } else {
        0
    };
    let neighbors = |path: &str, direction: Direction| -> (out: Vec<String>)
        ensures
            forall|b: Seq<char>| #[trigger] texts(out@).contains(b) <==> import_way(revisions@)(direction, path@, b),
    {
        adjacent(revisions, path, direction)
    };
    let reached = walk_along(&roots, request.direction, depth, neighbors, Ghost(import_way(r)));
    let ghost reach = reached_modules(r, names, request.direction, relations, request.depth);
    proof {
        let hop = hops_along(import_way(r), request.direction);
        assert(is_reach(reached@, names.to_set(), hop, depth as nat));
        assert(is_reach(reach, names.to_set(), hop, depth as nat));
        lemma_reach_unique(reached@, reach, names.to_set(), hop, depth as nat);
    }
    let ghost start = builder@;
    if follows_imports {
        add_import_edges(&mut builder, revisions, &reached);
    }
    let ghost with_imports = builder@;
    let mut depths = copy_depths(&reached, Ghost(r));
    let follows_tests = holds_relation(request.relations, Relation::TestedBy);
    if follows_tests {
        add_test_edges(&mut builder, &mut depths, revisions, &reached);
    }
    let ghost with_tests = builder@;
    if holds_relation(request.relations, Relation::ReExports) {
        add_forward_edges(&mut builder, revisions, &reached);
    }
    add_module_nodes(&mut builder, result, &depths, Ghost(hop_options(r, follows_tests, reach)));
    proof {
        let wanted = module_graph(result@.files, r, names, request.direction, relations, request.depth);
        assert forall|e: EdgeView| builder@.edges.contains(e) <==> wanted.edges.contains(e) by {
            assert(with_imports.edges.contains(e) <==> start.edges.contains(e) || (follows_imports && is_import_edge(r, reach, e)));
            assert(with_tests.edges.contains(e) <==> with_imports.edges.contains(e) || (follows_tests && is_test_edge(r, reach, e)));
        }
        assert(builder@.edges =~= wanted.edges);
        assert(builder@ =~= wanted);
    }
    let scope = names_of(&reached);
    let completeness = index_completeness(revisions, request.view, &scope, &scope);
    (builder, completeness)
}

/// The place of the function that a graph is rooted at, by its file from a
/// place on and its place there. A file without a path has none.
pub open spec fn function_place(files: Seq<FileView>, id: Seq<char>, from: int) -> Option<(int, int)>
    decreases files.len() - from,
{
    if from < 0 || from >= files.len() {
        None
    } else if changed_path_of(files[from]) is None {
        function_place(files, id, from + 1)
    } else {
        match crate::query::detail::place_in(files[from], id, 0) {
            Some(at) => Some((from, at)),
            None => function_place(files, id, from + 1),
        }
    }
}

/// How a function status reads as a node status.
pub open spec fn function_node_status(status: FunctionChangeStatus) -> NodeStatus {
    match status {
        FunctionChangeStatus::Added => NodeStatus::Added,
        FunctionChangeStatus::Removed => NodeStatus::Removed,
        FunctionChangeStatus::Modified => NodeStatus::Modified,
        FunctionChangeStatus::Unchanged => NodeStatus::Unchanged,
    }
}

/// The node of a function.
pub open spec fn function_facts(file: FileView, path: Seq<char>, function: FunctionView) -> NodeView {
    NodeView {
        id: function_identity(identity(file, function)),
        key: Seq::empty(),
        label: function.qualified_name,
        kind: NodeKind::Function,
        path,
        status: function_node_status(function.status),
        depth: 0,
    }
}

/// What the calls of a function are resolved against.
pub open spec fn scene_of(files: Seq<FileView>, r: RevisionsView, request: RequestView, file: int) -> Scene {
    Scene {
        files,
        revisions: r,
        guess: request.relations.contains(Relation::PossibleCall),
        view: request.view,
        file: files[file],
        path: changed_path_of(files[file])->0,
    }
}

/// The graph of a function, where the analysis has it: the calls that it takes
/// part in, on either side of the change.
pub open spec fn function_graph(files: Seq<FileView>, r: RevisionsView, id: Seq<char>, request: RequestView) -> BuilderView {
    match function_place(files, id, 0) {
        Some((file, at)) => calls_around(scene_of(files, r, request, file), at, request.direction, request.relations, request.depth),
        None => BuilderView::empty(),
    }
}

/// The files of one side that the calls of a function are looked for in: its
/// own, and those that import it.
pub open spec fn function_scope(r: RevisionsView, file: FileView, path: Seq<char>, side: Side) -> Set<Seq<char>> {
    let importers = index_on(r, side).importers_of(path);
    match path_on(file, side) {
        Some(own) => importers.insert(own),
        None => importers,
    }
}

/// What is lacking in the graph of a function.
pub open spec fn function_gaps(files: Seq<FileView>, r: RevisionsView, id: Seq<char>, request: RequestView) -> CompletenessView {
    match function_place(files, id, 0) {
        Some((file, _)) => {
            let scene = scene_of(files, r, request, file);
            CompletenessView {
                unresolved_calls: saturated(all_missed(scene).to_set().len()),
                ..index_gaps(
                    r,
                    request.view,
                    function_scope(r, files[file], scene.path, Side::Base),
                    function_scope(r, files[file], scene.path, Side::Target),
                )
            }
        },
        None => nothing_lacks(),
    }
}

fn searched_files(revisions: &Revisions, file: &FileResult, path: &str, side: Side) -> (r: TextSet)
    ensures
        r@ == function_scope(revisions@, file@, path@, side),
{
    let mut out = TextSet::new();
    out.extend(revisions.side(side).0.importers(path));
    let own = match side {
        Side::Base => &file.base_path,
        Side::Target => &file.target_path,
    };
    if let Some(own) = own {
        out.insert(own.clone());
    }
    assert(out@ =~= function_scope(revisions@, file@, path@, side));
    out
}

pub(crate) fn function_node(file: &FileResult, path: &str, function: &FunctionResult) -> (r: Node)
    ensures
        r@ == function_facts(file@, path@, function@),
{
    let r = Node {
        id: Node::function_id(function_id(file, function).as_str()),
        key: String::new(),
        label: function.qualified_name.clone(),
        kind: NodeKind::Function,
        path: path.to_owned(),
        status: match function.status {
            FunctionChangeStatus::Added => NodeStatus::Added,
            FunctionChangeStatus::Removed => NodeStatus::Removed,
            FunctionChangeStatus::Modified => NodeStatus::Modified,
            FunctionChangeStatus::Unchanged => NodeStatus::Unchanged,
        },
        depth: 0,
    };
    assert(r@ =~= function_facts(file@, path@, function@));
    r
}

/// Build the graph of a function.
fn function_rooted(result: &AnalysisResult, revisions: &Revisions, request: &Request, id: &str) -> (r: (GraphBuilder, Completeness))
    ensures
        r.0.valid(),
        r.0@ == function_graph(result@.files, revisions@, id@, request@),
        r.1@ == function_gaps(result@.files, revisions@, id@, request@),
{
    let ghost files = result@.files;
    let mut i: usize = 0;
    while i < result.files.len()
        invariant
            i <= result.files.len(),
            files == file_views(result.files@),
            files == result@.files,
            function_place(files, id@, i as int) == function_place(files, id@, 0),
        decreases result.files.len() - i,
    {
        let file = &result.files[i];
        assert(files[i as int] == file@);
        if let Some(path) = changed_path(file) {
            if let Some(at) = crate::query::detail::find_in(file, id) {
                let (builder, unresolved) = crate::graph::callgraph::function_graph(result, revisions, request, file, path, at);
                let base_scope = searched_files(revisions, file, path, Side::Base);
                let target_scope = searched_files(revisions, file, path, Side::Target);
                let mut completeness = index_completeness(revisions, request.view, &base_scope, &target_scope);
                completeness.unresolved_calls = unresolved;
                assert(function_place(files, id@, 0) == Some((i as int, at as int)));
                assert(completeness@ =~= function_gaps(files, revisions@, id@, request@));
                return (builder, completeness);
            }
        }
        i = i + 1;
    }
    (GraphBuilder::new(), Completeness::default())
}

/// A graph as its view shows it, with what a reader does not need one box per
/// collapsed, within its limits.
pub open spec fn answered_graph(whole: BuilderView, gaps: CompletenessView, view: View, limits: Limits) -> GraphView {
    let grouped = grouped_graph(whole.seen_in(view), limits);
    reported(delivered(grouped.builder, limits), grouped.groups, grouped.omitted, gaps)
}

/// The graph that a request describes: the graph of its function or of its
/// modules.
pub open spec fn described(result: ResultView, r: RevisionsView, request: RequestView) -> GraphView {
    match request.function_root {
        Some(id) => answered_graph(
            function_graph(result.files, r, id, request),
            function_gaps(result.files, r, id, request),
            request.view,
            request.limits,
        ),
        None => answered_graph(
            modules_around(result.files, r, request),
            module_gaps(result.files, r, request),
            request.view,
            request.limits,
        ),
    }
}

/// Build the graph one request describes.
#[must_use]
pub fn build(result: &AnalysisResult, revisions: &Revisions, request: &Request) -> (r: Graph)
    ensures
        r@ == described(result@, revisions@, request@),
        crate::graph::within_budget(r@, request.limits),
        crate::graph::has_no_loose_end(r@),
{
    let (builder, completeness) = match request.function_root {
        Some(id) => function_rooted(result, revisions, request, id),
        None => module_rooted(result, revisions, request),
    };
    let mut builder = builder;
    builder.apply_view(request.view);
    let grouped = collapse_groups(builder, request.limits);
    grouped.builder.finish(request.limits).report(grouped.groups, grouped.omitted, completeness)
}

/// An edge says which revisions have it: one that both import is unchanged, one
/// that only the target imports was added, and one that only the base imports
/// was removed.
pub proof fn lemma_status_is_membership(r: RevisionsView, reached: Map<Seq<char>, u32>, from: Seq<char>, to: Seq<char>)
    requires
        reached.contains_key(from),
        reached.contains_key(to),
        imports_either(r, from, to),
    ensures
        is_import_edge(r, reached, import_edge(r, from, to)),
        in_base(import_edge(r, from, to).status) == r.base.edges.contains((from, to)),
        in_target(import_edge(r, from, to).status) == r.target.edges.contains((from, to)),
{
}

} // verus!

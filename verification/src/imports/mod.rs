//! Who imports what, across a whole revision.
//!
//! "What breaks if this changes?" is a question about the files a diff does
//! not contain, so the index is built over a whole commit tree rather than
//! over a change. Only each file's leading region is parsed, because import
//! statements live there.

use vstd::prelude::*;

use crate::analysis::saturated;
use crate::collections::{lemma_listed, listed, TextMap, TextSet};
use crate::graph::reach::{hops_along, is_reach, lemma_met_once, walk_along, within, Reached};
use crate::graph::Direction;
use crate::imports::links::{earliest, linked, map_of, LinkTable, MapTable, PairTable};
use crate::imports::resolve::{resolved, AliasView};
use crate::languages::modules::{binding_map, BindingView, ImportBinding};
use crate::languages::ScanView;
use crate::order::picked;
use crate::text::{text_option, texts};

pub mod config;
pub mod links;
pub mod resolve;
pub mod revision;
pub mod symbols;
pub mod tree;

pub use resolve::PathAlias;
pub use revision::index_revision;
pub use symbols::{extend_symbols, index_symbols, ExportedDefinition, FileSymbols, SymbolIndex};

verus! {

/// One file of a commit's tree.
pub struct TreeEntry {
    pub path: String,
    pub object_id: String,
}

/// A tree entry by its texts.
#[verifier::ext_equal]
pub struct EntryView {
    pub path: Seq<char>,
    pub object_id: Seq<char>,
}

impl View for TreeEntry {
    type V = EntryView;

    open spec fn view(&self) -> EntryView {
        EntryView { path: self.path@, object_id: self.object_id@ }
    }
}

/// The entries of a tree by their texts.
pub open spec fn entry_views(entries: Seq<TreeEntry>) -> Seq<EntryView> {
    Seq::new(entries.len(), |i: int| entries[i]@)
}

/// A resolved import graph over one revision.
#[derive(Debug, PartialEq, Eq)]
pub struct ImportIndex {
    /// Each importing path with what it imports, and the earliest line that
    /// says so.
    edges: LinkTable,
    /// What the local names of each importing path bind.
    bindings: MapTable<ImportBinding>,
    /// The path that a specifier resolved to, by importer and specifier.
    targets: PairTable<String>,
    /// Files scanned only up to the import scan limit.
    truncated: TextSet,
    /// Specifiers that named no file in this revision, such as npm packages.
    unresolved: u32,
    /// How many of those each importing path has.
    misses: TextMap<u32>,
    /// Every source file scanned, whether or not it takes part in an edge.
    files: TextSet,
}

/// An import graph by what it holds: its edges from importer to imported path,
/// the line of each statement behind one, what local names bind and specifiers
/// resolve to, and the files that were scanned.
#[verifier::ext_equal]
pub struct IndexView {
    pub edges: Set<(Seq<char>, Seq<char>)>,
    pub lines: Map<(Seq<char>, Seq<char>), u32>,
    pub bindings: Map<Seq<char>, Map<Seq<char>, BindingView>>,
    pub targets: Map<(Seq<char>, Seq<char>), Seq<char>>,
    pub truncated: Set<Seq<char>>,
    pub unresolved: u32,
    pub misses: Map<Seq<char>, u32>,
    pub files: Set<Seq<char>>,
}

/// The bindings of several files.
pub open spec fn binding_maps(bindings: Map<Seq<char>, Map<Seq<char>, ImportBinding>>) -> Map<Seq<char>, Map<Seq<char>, BindingView>> {
    bindings.map_values(|m: Map<Seq<char>, ImportBinding>| binding_map(m))
}

/// The texts of a table.
pub open spec fn text_table(table: Map<(Seq<char>, Seq<char>), String>) -> Map<(Seq<char>, Seq<char>), Seq<char>> {
    table.map_values(|s: String| s@)
}

impl View for ImportIndex {
    type V = IndexView;

    closed spec fn view(&self) -> IndexView {
        IndexView {
            edges: self.edges.links(),
            lines: self.edges.lines(),
            bindings: binding_maps(self.bindings@),
            targets: text_table(self.targets@),
            truncated: self.truncated@,
            unresolved: self.unresolved,
            misses: self.misses@,
            files: self.files@,
        }
    }
}

/// A count with one more, as far as it can be counted.
pub open spec fn one_more(n: u32) -> u32 {
    if n < u32::MAX {
        (n + 1) as u32
    } else {
        n
    }
}

/// How many specifiers of a path named nothing.
pub open spec fn misses_of(misses: Map<Seq<char>, u32>, path: Seq<char>) -> u32 {
    if misses.contains_key(path) {
        misses[path]
    } else {
        0
    }
}

/// How many specifiers of several paths named nothing.
pub open spec fn missed_by(misses: Map<Seq<char>, u32>, paths: Seq<Seq<char>>) -> nat
    decreases paths.len(),
{
    if paths.len() == 0 {
        0
    } else {
        missed_by(misses, paths.drop_last()) + misses_of(misses, paths.last()) as nat
    }
}

/// The condition of a path that its imports were read only up to the scan limit.
pub open spec fn read_in_part(truncated: Set<Seq<char>>) -> spec_fn(Seq<char>) -> bool {
    |path: Seq<char>| truncated.contains(path)
}

impl IndexView {
    /// The index of nothing.
    pub open spec fn empty() -> IndexView {
        IndexView {
            edges: Set::empty(),
            lines: Map::empty(),
            bindings: Map::empty(),
            targets: Map::empty(),
            truncated: Set::empty(),
            unresolved: 0,
            misses: Map::empty(),
            files: Set::empty(),
        }
    }

    /// The index with an edge that a line states; the earliest line is kept.
    pub open spec fn with_edge(self, importer: Seq<char>, target: Seq<char>, line: u32) -> IndexView {
        let p = (importer, target);
        IndexView { edges: self.edges.insert(p), lines: self.lines.insert(p, earliest(self.lines, p, line)), ..self }
    }

    /// The index with an edge that no line states.
    pub open spec fn with_link(self, importer: Seq<char>, target: Seq<char>) -> IndexView {
        IndexView {
            edges: self.edges.insert((importer, target)),
            files: self.files.insert(importer).insert(target),
            ..self
        }
    }

    /// The index with one more file in it.
    pub open spec fn with_file(self, path: Seq<char>) -> IndexView {
        IndexView { files: self.files.insert(path), ..self }
    }

    /// The index with one specifier of a file: what it resolved to and the
    /// edge that follows, or one more that named nothing.
    pub open spec fn with_specifier(self, path: Seq<char>, specifier: Seq<char>, line: u32, target: Option<Seq<char>>) -> IndexView {
        match target {
            Some(target) => (IndexView { targets: self.targets.insert((path, specifier), target), ..self }).with_edge(path, target, line),
            None => IndexView {
                unresolved: one_more(self.unresolved),
                misses: self.misses.insert(path, one_more(misses_of(self.misses, path))),
                ..self
            },
        }
    }

    /// The index with several specifiers of a file, in turn.
    pub open spec fn with_specifiers(
        self,
        path: Seq<char>,
        specifiers: Seq<Seq<char>>,
        lines: Map<Seq<char>, u32>,
        paths: Set<Seq<char>>,
        aliases: Seq<AliasView>,
    ) -> IndexView
        decreases specifiers.len(),
    {
        if specifiers.len() == 0 {
            self
        } else {
            let specifier = specifiers.last();
            self.with_specifiers(path, specifiers.drop_last(), lines, paths, aliases).with_specifier(
                path,
                specifier,
                lines[specifier],
                resolved(specifier, path, paths, aliases),
            )
        }
    }

    /// The index with what the scan of a file found.
    pub open spec fn with_scan(self, path: Seq<char>, scan: ScanView, paths: Set<Seq<char>>, aliases: Seq<AliasView>) -> IndexView {
        let entered = IndexView {
            files: self.files.insert(path),
            truncated: if scan.truncated {
                self.truncated.insert(path)
            } else {
                self.truncated
            },
            ..self
        };
        let linked = entered.with_specifiers(path, listed(scan.specifiers.dom()), scan.specifiers, paths, aliases);
        if scan.bindings == Map::<Seq<char>, BindingView>::empty() {
            linked
        } else {
            IndexView { bindings: linked.bindings.insert(path, scan.bindings), ..linked }
        }
    }

    /// The index with one local name that a file binds.
    pub open spec fn with_binding(self, from: Seq<char>, local: Seq<char>, binding: BindingView) -> IndexView {
        IndexView { bindings: self.bindings.insert(from, map_of(self.bindings, from).insert(local, binding)), ..self }
    }

    /// The paths that import a path directly.
    pub open spec fn importers_of(self, path: Seq<char>) -> Set<Seq<char>> {
        Set::new(|importer: Seq<char>| self.edges.contains((importer, path)))
    }
}

/// The hop from a path to what imports it.
pub open spec fn import_hop(edges: Set<(Seq<char>, Seq<char>)>) -> spec_fn(Seq<char>, Seq<char>) -> bool {
    |imported: Seq<char>, importer: Seq<char>| edges.contains((importer, imported))
}

impl Default for ImportIndex {
    fn default() -> (r: Self)
        ensures
            r@ == IndexView::empty(),
    {
        ImportIndex::new()
    }
}

impl ImportIndex {
    /// The index of nothing.
    #[must_use]
    pub fn new() -> (r: Self)
        ensures
            r@ == IndexView::empty(),
    {
        let r = ImportIndex {
            edges: LinkTable::new(),
            bindings: MapTable::new(),
            targets: PairTable::new(),
            truncated: TextSet::new(),
            unresolved: 0,
            misses: TextMap::new(),
            files: TextSet::new(),
        };
        assert(r@ =~= IndexView::empty());
        r
    }

    /// Paths that import `path` directly.
    #[must_use]
    pub fn importers(&self, path: &str) -> (r: &TextSet)
        ensures
            r@ == self@.importers_of(path@),
    {
        self.edges.to_name(path)
    }

    /// Paths `path` imports directly.
    #[must_use]
    pub fn dependencies(&self, path: &str) -> (r: &TextSet)
        ensures
            r@ == linked(self@.edges, path@),
    {
        self.edges.from_name(path)
    }

    /// Line the import statement that produced this edge sits on.
    ///
    /// `None` when no statement of this revision leads from one path to the
    /// other. A module imported by several statements is one edge with one
    /// site, and the earliest line is kept.
    #[must_use]
    pub fn import_line(&self, importer: &str, target: &str) -> (r: Option<u32>)
        ensures
            match r {
                Some(line) => self@.lines.contains_key((importer@, target@)) && line == self@.lines[(importer@, target@)] && self@.edges.contains(
                    (importer@, target@),
                ),
                None => !self@.lines.contains_key((importer@, target@)),
            },
    {
        self.edges.line_of(importer, target)
    }

    /// What one file's local names bind, keyed by the local name.
    #[must_use]
    pub fn bindings(&self, path: &str) -> (r: &TextMap<ImportBinding>)
        ensures
            binding_map(r@) == map_of(self@.bindings, path@),
    {
        let r = self.bindings.of(path);
        assert(binding_map(r@) =~= map_of(self@.bindings, path@));
        r
    }

    /// The path one file's specifier resolved to in this revision.
    ///
    /// `None` for a specifier that named nothing here, which is almost always
    /// an installed package.
    #[must_use]
    pub fn resolve_specifier(&self, from: &str, specifier: &str) -> (r: Option<&str>)
        ensures
            match r {
                Some(target) => self@.targets.contains_key((from@, specifier@)) && target@ == self@.targets[(from@, specifier@)],
                None => !self@.targets.contains_key((from@, specifier@)),
            },
    {
        match self.targets.get(from, specifier) {
            Some(target) => Some(target.as_str()),
            None => None,
        }
    }

    /// Files whose imports were read only up to the scan limit.
    #[must_use]
    pub fn truncated_files(&self) -> (r: &TextSet)
        ensures
            r@ == self@.truncated,
    {
        &self.truncated
    }

    /// How many of some files had their imports read only up to the scan limit.
    #[must_use]
    pub fn truncated_files_in(&self, scope: &TextSet) -> (r: u32)
        ensures
            r == saturated(picked(listed(scope@), read_in_part(self@.truncated)).len()),
    {
        let n: usize = scope.len();
        let ghost keys = scope.keys();
        let ghost keep = read_in_part(self@.truncated);
        let mut found: u32 = 0;
        let mut i: usize = 0;
        assert(picked(keys.take(0), keep).len() == 0);
        while i < n
            invariant
                n == keys.len(),
                keys == scope.keys(),
                i <= n,
                keep == read_in_part(self@.truncated),
                found == saturated(picked(keys.take(i as int), keep).len()),
            decreases n - i,
        {
            assert(keys.take(i + 1).drop_last() =~= keys.take(i as int));
            assert(keys.take(i + 1).last() == keys[i as int]);
            if self.truncated.contains(scope.key_at(i)) && found < u32::MAX {
                found = found + 1;
            }
            i = i + 1;
        }
        proof {
            assert(keys.take(n as int) =~= keys);
            lemma_listed(keys);
        }
        found
    }

    /// How many specifiers of some files named no file of this revision.
    #[must_use]
    pub fn unresolved_specifiers_in(&self, scope: &TextSet) -> (r: u32)
        ensures
            r == saturated(missed_by(self@.misses, listed(scope@))),
    {
        let n: usize = scope.len();
        let ghost keys = scope.keys();
        let mut found: u32 = 0;
        let mut i: usize = 0;
        assert(missed_by(self@.misses, keys.take(0)) == 0);
        while i < n
            invariant
                n == keys.len(),
                keys == scope.keys(),
                i <= n,
                found == saturated(missed_by(self@.misses, keys.take(i as int))),
            decreases n - i,
        {
            assert(keys.take(i + 1).drop_last() =~= keys.take(i as int));
            assert(keys.take(i + 1).last() == keys[i as int]);
            let more: u32 = match self.misses.get(scope.key_at(i)) {
                Some(known) => *known,
                None => 0,
            };
            found = if more > u32::MAX - found {
                u32::MAX
            } else {
                found + more
            };
            i = i + 1;
        }
        proof {
            assert(keys.take(n as int) =~= keys);
            lemma_listed(keys);
        }
        found
    }

    /// Every source file this index covers.
    #[must_use]
    pub fn files(&self) -> (r: &TextSet)
        ensures
            r@ == self@.files,
    {
        &self.files
    }

    /// How many source files this index covers.
    #[must_use]
    pub fn scanned_files(&self) -> (r: u32)
        ensures
            r == (if listed(self@.files).len() <= u32::MAX {
                listed(self@.files).len() as u32
            } else {
                u32::MAX
            }),
    {
        let n: usize = self.files.len();
        proof {
            lemma_listed(self.files.keys());
        }
        crate::graph::count(n)
    }

    #[must_use]
    pub fn unresolved_specifiers(&self) -> (r: u32)
        ensures
            r == self@.unresolved,
    {
        self.unresolved
    }

    #[must_use]
    pub fn is_empty(&self) -> (r: bool)
        ensures
            r == (self@.edges == Set::<(Seq<char>, Seq<char>)>::empty()),
    {
        self.edges.is_empty()
    }

    /// Record one resolved edge, keeping the earliest line it was seen at.
    ///
    /// The three views of one edge (who imports, who is imported, and where it
    /// is written) move together, so the index can never hold a line for an
    /// edge it does not have.
    pub fn add_edge(&mut self, importer: &str, target: &str, line: u32)
        ensures
            final(self)@ == old(self)@.with_edge(importer@, target@, line),
    {
        let ghost given = self@;
        self.edges.link(importer, target, Some(line));
        assert(self@ =~= given.with_edge(importer@, target@, line));
    }

    /// Record one edge that no statement states, and the files at its ends.
    pub fn add_link(&mut self, importer: &str, target: &str)
        ensures
            final(self)@ == old(self)@.with_link(importer@, target@),
    {
        let ghost given = self@;
        self.edges.link(importer, target, None);
        self.files.insert(importer.to_owned());
        self.files.insert(target.to_owned());
        assert(self@ =~= given.with_link(importer@, target@));
    }

    /// Record a file, whether or not it takes part in an edge.
    pub fn add_file(&mut self, path: &str)
        ensures
            final(self)@ == old(self)@.with_file(path@),
    {
        let ghost given = self@;
        self.files.insert(path.to_owned());
        assert(self@ =~= given.with_file(path@));
    }

    /// Record what one specifier of a file resolved to, or that it named
    /// nothing: such a one is counted, not guessed at.
    pub fn add_specifier(&mut self, path: &str, specifier: &str, line: u32, target: Option<String>)
        ensures
            final(self)@ == old(self)@.with_specifier(path@, specifier@, line, text_option(target)),
    {
        let ghost given = self@;
        match target {
            Some(target) => {
                self.targets.insert(path, specifier, target.clone());
                proof {
                    assert(self@ =~= IndexView { targets: given.targets.insert((path@, specifier@), target@), ..given });
                }
                self.add_edge(path, target.as_str(), line);
            },
            None => {
                self.unresolved = if self.unresolved < u32::MAX {
                    self.unresolved + 1
                } else {
                    self.unresolved
                };
                let known: u32 = match self.misses.get(path) {
                    Some(known) => *known,
                    None => 0,
                };
                self.misses.insert(
                    path.to_owned(),
                    if known < u32::MAX {
                        known + 1
                    } else {
                        known
                    },
                );
                assert(self@ =~= given.with_specifier(path@, specifier@, line, None));
            },
        }
    }

    /// Record a file that was scanned, and whether it was read whole.
    pub fn enter(&mut self, path: &str, truncated: bool)
        ensures
            final(self)@ == (IndexView {
                files: old(self)@.files.insert(path@),
                truncated: if truncated {
                    old(self)@.truncated.insert(path@)
                } else {
                    old(self)@.truncated
                },
                ..old(self)@
            }),
    {
        self.files.insert(path.to_owned());
        if truncated {
            self.truncated.insert(path.to_owned());
        }
    }

    /// Record everything that the local names of a file bind.
    pub(crate) fn set_bindings(&mut self, path: &str, bindings: TextMap<ImportBinding>)
        ensures
            final(self)@ == (IndexView { bindings: old(self)@.bindings.insert(path@, binding_map(bindings@)), ..old(self)@ }),
    {
        let ghost given = self@;
        self.bindings.set(path, bindings);
        assert(self@.bindings =~= given.bindings.insert(path@, binding_map(bindings@)));
    }

    /// Record one local name that a file binds.
    pub fn add_binding(&mut self, from: &str, local: &str, binding: ImportBinding)
        ensures
            final(self)@ == old(self)@.with_binding(from@, local@, binding@),
    {
        let ghost given = self@;
        let ghost was = map_of(self.bindings@, from@);
        self.bindings.insert(from, local, binding);
        proof {
            let wanted = given.with_binding(from@, local@, binding@);
            assert(binding_map(was) =~= map_of(given.bindings, from@));
            assert(binding_map(was.insert(local@, binding)) =~= binding_map(was).insert(local@, binding@));
            assert(self@.bindings =~= wanted.bindings);
            assert(self@ =~= wanted);
        }
    }

    /// Paths that reach `path` by importing it, directly or through others.
    ///
    /// The walk is breadth-first and bounded by `max_depth`, and reports the
    /// fewest hops by which each importer reaches the file.
    #[must_use]
    pub fn reachable_importers(&self, path: &str, max_depth: u32) -> (r: Reached)
        ensures
            is_reach(r@.insert(path@, 0), set![path@], import_hop(self@.edges), max_depth as nat),
            !r@.contains_key(path@),
    {
        let start: Vec<String> = vec![path.to_owned()];
        let ghost edges = self@.edges;
        let neighbors = |id: &str, _way: Direction| -> (out: Vec<String>)
            ensures
                forall|b: Seq<char>| #[trigger] texts(out@).contains(b) <==> self@.edges.contains((b, id@)),
        {
            let importers = self.importers(id);
            let out = importers.to_vec();
            proof {
                assert forall|b: Seq<char>| #[trigger] texts(out@).contains(b) <==> self@.edges.contains((b, id@)) by {
                    assert(texts(out@).to_set().contains(b) <==> importers@.contains(b));
                }
            }
            out
        };
        let ghost way = |d: Direction, a: Seq<char>, b: Seq<char>| edges.contains((b, a));
        let mut reached = walk_along(&start, Direction::Upstream, max_depth, neighbors, Ghost(way));
        proof {
            assert(hops_along(way, Direction::Upstream) =~= import_hop(edges));
            assert(texts(start@) =~= seq![path@]);
            assert(texts(start@)[0] == path@);
            assert forall|id: Seq<char>| texts(start@).to_set().contains(id) <==> set![path@].contains(id) by {
                if id == path@ {
                    assert(texts(start@).contains(id));
                }
            }
            assert(texts(start@).to_set() =~= set![path@]);
        }
        let ghost all = reached@;
        let _ = reached.remove(path);
        proof {
            let hop = import_hop(edges);
            crate::graph::reach::lemma_within_grows(set![path@], hop, 0, max_depth as nat);
            assert(within(set![path@], hop, 0).contains(path@));
            assert(all.contains_key(path@));
            lemma_met_once(set![path@], hop, all[path@] as nat, 0, path@);
            assert(reached@.insert(path@, 0) =~= all);
        }
        reached
    }
}

} // verus!

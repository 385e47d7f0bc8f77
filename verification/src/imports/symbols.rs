//! What the files of a revision publish, and where a published name's
//! definition is written.

use vstd::prelude::*;

use crate::collections::{TextMap, TextSet};
use crate::git::blob_map;
use crate::imports::revision::source_of;
use crate::imports::{entry_views, EntryView, ImportIndex, TreeEntry};
use crate::languages::modules::{symbol_map, ExportedSymbol, SymbolView};
use crate::languages::{
    analyze_source, definition_views, detect_language, language_of, source_outcome, AnalysisView, DefinitionView, FunctionDefinition,
    SourceAnalysis, SourceRange,
};
use crate::{BlobContent, BlobView, DiffScopeError, ErrorView};

verus! {

/// Re-export hops followed before a lookup gives up.
///
/// A barrel module forwarding through a barrel module is ordinary; a chain
/// longer than this is either generated or circular.
pub const MAX_RE_EXPORT_HOPS: u32 = 4;

/// What one file publishes and what it declares.
#[derive(Debug, PartialEq, Eq)]
pub struct FileSymbols {
    /// Exported name to what stands behind it.
    pub exports: TextMap<ExportedSymbol>,
    /// Specifiers this file re-exports from, `export * from` among them.
    pub re_exported_modules: TextSet,
    /// Every function the file declares.
    pub functions: Vec<FunctionDefinition>,
}

/// The symbols of a file by what they hold.
#[verifier::ext_equal]
pub struct FileSymbolsView {
    pub exports: Map<Seq<char>, SymbolView>,
    pub re_exported_modules: Set<Seq<char>>,
    pub functions: Seq<DefinitionView>,
}

impl View for FileSymbols {
    type V = FileSymbolsView;

    open spec fn view(&self) -> FileSymbolsView {
        FileSymbolsView {
            exports: symbol_map(self.exports@),
            re_exported_modules: self.re_exported_modules@,
            functions: definition_views(self.functions@),
        }
    }
}

/// One revision's exported symbols, over the files a graph may resolve through.
///
/// A file can only call into a changed module if it imports that module, so the
/// index covers the changed files and their direct importers and grows only
/// when a later query admits a file it does not yet hold.
#[derive(Debug, PartialEq, Eq)]
pub struct SymbolIndex {
    files: TextMap<FileSymbols>,
}

/// The symbols of several files.
pub open spec fn symbols_of(files: Map<Seq<char>, FileSymbols>) -> Map<Seq<char>, FileSymbolsView> {
    files.map_values(|f: FileSymbols| f@)
}

impl View for SymbolIndex {
    type V = Map<Seq<char>, FileSymbolsView>;

    closed spec fn view(&self) -> Map<Seq<char>, FileSymbolsView> {
        symbols_of(self.files@)
    }
}

/// Where an exported name's definition was found.
#[derive(Debug, Clone, PartialEq, Eq)]
pub struct ExportedDefinition {
    /// File the definition is written in.
    pub path: String,
    /// Name it is declared under there, which is not always the exported name.
    pub local: String,
    /// Where it is written, so a caller can point at it.
    pub range: SourceRange,
    /// Re-export hops crossed to reach it; zero for a direct export.
    pub hops: u32,
}

/// A found definition by its texts.
#[verifier::ext_equal]
pub struct FoundView {
    pub path: Seq<char>,
    pub local: Seq<char>,
    pub range: SourceRange,
    pub hops: u32,
}

impl View for ExportedDefinition {
    type V = FoundView;

    open spec fn view(&self) -> FoundView {
        FoundView { path: self.path@, local: self.local@, range: self.range, hops: self.hops }
    }
}

/// What stands behind a name that a file exports.
pub open spec fn exported_symbol(files: Map<Seq<char>, FileSymbolsView>, path: Seq<char>, exported: Seq<char>) -> Option<SymbolView> {
    if files.contains_key(path) && files[path].exports.contains_key(exported) {
        Some(files[path].exports[exported])
    } else {
        None
    }
}

/// The function that a module publishes under a name, with some hops crossed
/// already: its own where it is declared there, else what stands behind it in
/// the module that it is forwarded from. A name that does not name a function
/// in a covered file names nothing, and nor does one that more hops forward
/// than are followed.
pub open spec fn defined(
    files: Map<Seq<char>, FileSymbolsView>,
    targets: Map<(Seq<char>, Seq<char>), Seq<char>>,
    path: Seq<char>,
    exported: Seq<char>,
    hops: u32,
) -> Option<FoundView>
    decreases MAX_RE_EXPORT_HOPS - hops,
{
    match exported_symbol(files, path, exported) {
        None => None,
        Some(symbol) => match symbol.from {
            None => match symbol.function {
                Some(range) => Some(FoundView { path, local: symbol.local, range, hops }),
                None => None,
            },
            Some(specifier) => if hops >= MAX_RE_EXPORT_HOPS || !targets.contains_key((path, specifier)) {
                None
            } else {
                defined(files, targets, targets[(path, specifier)], symbol.local, (hops + 1) as u32)
            },
        },
    }
}

/// A definition is found only in a file that the index covers, where it is
/// declared as a function and not forwarded, and within the hops that are
/// followed.
pub proof fn lemma_definition_is_declared(
    files: Map<Seq<char>, FileSymbolsView>,
    targets: Map<(Seq<char>, Seq<char>), Seq<char>>,
    path: Seq<char>,
    exported: Seq<char>,
    hops: u32,
)
    requires
        hops <= MAX_RE_EXPORT_HOPS,
    ensures
        match defined(files, targets, path, exported, hops) {
            Some(found) => {
                &&& hops <= found.hops <= MAX_RE_EXPORT_HOPS
                &&& files.contains_key(found.path)
                &&& exists|name: Seq<char>| #[trigger] files[found.path].exports.contains_key(name) && {
                    let symbol = files[found.path].exports[name];
                    symbol.from is None && symbol.function == Some(found.range) && symbol.local == found.local
                }
            },
            None => true,
        },
    decreases MAX_RE_EXPORT_HOPS - hops,
{
    if let Some(symbol) = exported_symbol(files, path, exported) {
        if let Some(specifier) = symbol.from {
            if hops < MAX_RE_EXPORT_HOPS && targets.contains_key((path, specifier)) {
                lemma_definition_is_declared(files, targets, targets[(path, specifier)], symbol.local, (hops + 1) as u32);
            }
        }
    }
}

/// Files that a whole-module re-export forwards are not looked into: a name
/// that a module does not itself export names nothing there.
pub proof fn lemma_no_guess_through_whole_modules(
    files: Map<Seq<char>, FileSymbolsView>,
    targets: Map<(Seq<char>, Seq<char>), Seq<char>>,
    path: Seq<char>,
    exported: Seq<char>,
)
    requires
        files.contains_key(path) ==> !files[path].exports.contains_key(exported),
    ensures
        defined(files, targets, path, exported, 0) is None,
{
}

impl Default for SymbolIndex {
    fn default() -> (r: Self)
        ensures
            r@ == Map::<Seq<char>, FileSymbolsView>::empty(),
    {
        SymbolIndex::new()
    }
}

impl SymbolIndex {
    #[must_use]
    pub fn new() -> (r: Self)
        ensures
            r@ == Map::<Seq<char>, FileSymbolsView>::empty(),
    {
        let r = SymbolIndex { files: TextMap::new() };
        assert(r@ =~= Map::<Seq<char>, FileSymbolsView>::empty());
        r
    }

    /// What one file publishes, when the index covers that file.
    #[must_use]
    pub fn file(&self, path: &str) -> (r: Option<&FileSymbols>)
        ensures
            match r {
                Some(symbols) => self@.contains_key(path@) && symbols@ == self@[path@],
                None => !self@.contains_key(path@),
            },
    {
        self.files.get(path)
    }

    /// Whether this index was built over `path`.
    ///
    /// A path it does not cover was never parsed, which is not the same as a
    /// file that exports nothing: the first is a bound, the second is a fact.
    #[must_use]
    pub fn covers(&self, path: &str) -> (r: bool)
        ensures
            r == self@.contains_key(path@),
    {
        self.files.contains_key(path)
    }

    /// Every path this index covers, in ascending order.
    #[must_use]
    pub fn paths(&self) -> (r: Vec<String>)
        ensures
            crate::text::texts(r@) == crate::collections::listed(self@.dom()),
            crate::text::texts(r@).to_set() == self@.dom(),
            crate::collections::ascending(crate::text::texts(r@)),
    {
        let n: usize = self.files.len();
        let ghost keys = self.files.keys();
        let mut out: Vec<String> = Vec::new();
        let mut i: usize = 0;
        assert(crate::text::texts(out@) =~= keys.take(0));
        while i < n
            invariant
                n == keys.len(),
                keys == self.files.keys(),
                i <= n,
                crate::text::texts(out@) == keys.take(i as int),
            decreases n - i,
        {
            let ghost so_far = crate::text::texts(out@);
            out.push(self.files.key_at(i).to_owned());
            assert(crate::text::texts(out@) =~= so_far.push(keys[i as int]));
            assert(keys.take(i + 1) =~= so_far.push(keys[i as int]));
            i = i + 1;
        }
        proof {
            assert(keys.take(n as int) =~= keys);
            crate::collections::lemma_listed(keys);
            assert(keys.to_set() =~= self@.dom());
        }
        out
    }

    #[must_use]
    pub fn is_empty(&self) -> (r: bool)
        ensures
            r == (self@ == Map::<Seq<char>, FileSymbolsView>::empty()),
    {
        let r = self.files.is_empty();
        proof {
            if r {
                assert(self@ =~= Map::<Seq<char>, FileSymbolsView>::empty());
            } else {
                let key = self.files.keys()[0];
                assert(self.files.keys().contains(key));
                assert(self@.contains_key(key));
            }
        }
        r
    }

    /// Record what one file publishes.
    pub fn insert(&mut self, path: &str, symbols: FileSymbols)
        ensures
            final(self)@ == old(self)@.insert(path@, symbols@),
    {
        let ghost given = self@;
        self.files.insert(path.to_owned(), symbols);
        assert(self@ =~= given.insert(path@, symbols@));
    }

    /// The function one module publishes under one exported name.
    ///
    /// Re-exports are followed, using `imports` to resolve each hop's
    /// specifier exactly as the edge built from it was resolved. A name that
    /// is exported but does not name a function in a covered file resolves to
    /// nothing. `export *` is never followed: choosing one of the names it
    /// forwards would invent an edge.
    #[must_use]
    pub fn definition(&self, imports: &ImportIndex, path: &str, exported: &str) -> (r: Option<ExportedDefinition>)
        ensures
            match r {
                Some(found) => defined(self@, imports@.targets, path@, exported@, 0) == Some(found@) && found.hops <= MAX_RE_EXPORT_HOPS,
                None => defined(self@, imports@.targets, path@, exported@, 0) is None,
            },
    {
        let ghost files = self@;
        let ghost targets = imports@.targets;
        proof {
            lemma_definition_is_declared(files, targets, path@, exported@, 0);
        }
        let mut here = path.to_owned();
        let mut name = exported.to_owned();
        let mut hops: u32 = 0;
        loop
            invariant
                files == self@,
                targets == imports@.targets,
                hops <= MAX_RE_EXPORT_HOPS,
                defined(files, targets, here@, name@, hops) == defined(files, targets, path@, exported@, 0),
                match defined(files, targets, path@, exported@, 0) {
                    Some(found) => found.hops <= MAX_RE_EXPORT_HOPS,
                    None => true,
                },
            decreases MAX_RE_EXPORT_HOPS - hops,
        {
            let Some(file) = self.files.get(here.as_str()) else {
                return None;
            };
            assert(files[here@] == file@);
            let Some(symbol) = file.exports.get(name.as_str()) else {
                return None;
            };
            assert(file@.exports[name@] == symbol@);
            assert(exported_symbol(files, here@, name@) == Some(symbol@));
            match &symbol.from {
                None => {
                    return match symbol.function {
                        Some(range) => Some(ExportedDefinition { path: here, local: symbol.local.clone(), range, hops }),
                        None => None,
                    };
                },
                Some(specifier) => {
                    if hops >= MAX_RE_EXPORT_HOPS {
                        return None;
                    }
                    let Some(next) = imports.resolve_specifier(here.as_str(), specifier.as_str()) else {
                        return None;
                    };
                    name = symbol.local.clone();
                    here = next.to_owned();
                    hops = hops + 1;
                },
            }
        }
    }

    /// Merge another index's files into this one, keeping what is here.
    ///
    /// A file parsed twice from one commit yields the same record, so the
    /// existing entry is kept rather than replaced.
    pub fn absorb(&mut self, other: SymbolIndex)
        ensures
            final(self)@ == other@.union_prefer_right(old(self)@),
    {
        let ghost given = self@;
        let ghost theirs = other@;
        let SymbolIndex { files } = other;
        let mut rest = files;
        assert(theirs =~= symbols_of(rest@));
        loop
            invariant_except_break
                theirs.union_prefer_right(given) == symbols_of(rest@).union_prefer_right(self@),
            ensures
                rest@ == Map::<Seq<char>, FileSymbols>::empty(),
                theirs.union_prefer_right(given) == symbols_of(rest@).union_prefer_right(self@),
            decreases rest.keys().len(),
        {
            let ghost waiting = rest@;
            let ghost held = self@;
            match rest.pop() {
                Some((path, symbols)) => {
                    if !self.files.contains_key(path.as_str()) {
                        self.insert(path.as_str(), symbols);
                    }
                    assert(symbols_of(rest@).union_prefer_right(self@) =~= symbols_of(waiting).union_prefer_right(held));
                },
                None => {
                    break;
                },
            }
        }
        proof {
            assert(symbols_of(rest@) =~= Map::<Seq<char>, FileSymbolsView>::empty());
            assert(symbols_of(rest@).union_prefer_right(self@) =~= self@);
        }
    }
}

/// The symbols that an analysis shows.
pub open spec fn shown_symbols(analysis: AnalysisView) -> FileSymbolsView {
    FileSymbolsView {
        exports: analysis.surface.symbols,
        re_exported_modules: analysis.surface.modules,
        functions: analysis.functions,
    }
}

/// An index with the wanted entries of a tree from a place on, each source file
/// that was read with what it publishes; the first that fails fails the index.
pub open spec fn symbols_from(
    files: Map<Seq<char>, FileSymbolsView>,
    entries: Seq<EntryView>,
    i: int,
    blobs: Map<Seq<char>, BlobView>,
    paths: Set<Seq<char>>,
) -> Result<Map<Seq<char>, FileSymbolsView>, ErrorView>
    decreases entries.len() - i,
{
    if i < 0 || i >= entries.len() {
        Ok(files)
    } else if !paths.contains(entries[i].path) {
        symbols_from(files, entries, i + 1, blobs, paths)
    } else {
        match source_of(entries[i], blobs) {
            None => symbols_from(files, entries, i + 1, blobs, paths),
            Some(bytes) => match source_outcome(entries[i].path, bytes) {
                Err(error) => Err(error),
                Ok(analysis) => symbols_from(files.insert(entries[i].path, shown_symbols(analysis)), entries, i + 1, blobs, paths),
            },
        }
    }
}

/// The outcome of an index, by what it holds.
pub open spec fn symbols_outcome(r: Result<SymbolIndex, DiffScopeError>) -> Result<Map<Seq<char>, FileSymbolsView>, ErrorView> {
    match r {
        Ok(index) => Ok(index@),
        Err(error) => Err(error@),
    }
}

/// The objects of the wanted files of a tree.
pub open spec fn wanted_symbols(entries: Seq<EntryView>, paths: Set<Seq<char>>) -> Set<Seq<char>> {
    Set::new(
        |id: Seq<char>|
            exists|i: int|
                0 <= i < entries.len() && (#[trigger] entries[i]).object_id == id && paths.contains(entries[i].path) && language_of(entries[i].path) is Some,
    )
}

/// The objects that a symbol index over some paths is read from.
#[must_use]
pub fn symbol_objects(entries: &Vec<TreeEntry>, paths: &TextSet) -> (r: TextSet)
    ensures
        r@ == wanted_symbols(entry_views(entries@), paths@),
{
    let ghost views = entry_views(entries@);
    let ghost wanted = |e: EntryView, id: Seq<char>| e.object_id == id && paths@.contains(e.path) && language_of(e.path) is Some;
    let mut out = TextSet::new();
    let mut i: usize = 0;
    while i < entries.len()
        invariant
            i <= entries.len(),
            views == entry_views(entries@),
            wanted == |e: EntryView, id: Seq<char>| e.object_id == id && paths@.contains(e.path) && language_of(e.path) is Some,
            forall|id: Seq<char>| #[trigger] out@.contains(id) <==> exists|k: int| 0 <= k < i && wanted(#[trigger] views[k], id),
        decreases entries.len() - i,
    {
        let ghost held = out@;
        let ghost here = views[i as int];
        assert(here == entries@[i as int]@);
        if paths.contains(entries[i].path.as_str()) && detect_language(entries[i].path.as_str()).is_some() {
            out.insert(entries[i].object_id.clone());
        }
        proof {
            assert forall|id: Seq<char>| #[trigger] out@.contains(id) <==> exists|k: int| 0 <= k < i + 1 && wanted(#[trigger] views[k], id) by {
                if held.contains(id) {
                    let k = choose|k: int| 0 <= k < i && wanted(#[trigger] views[k], id);
                    assert(wanted(views[k], id));
                }
                if wanted(here, id) {
                    assert(wanted(views[i as int], id));
                }
            }
        }
        i = i + 1;
    }
    proof {
        assert forall|id: Seq<char>| out@.contains(id) <==> wanted_symbols(views, paths@).contains(id) by {
            if out@.contains(id) {
                let k = choose|k: int| 0 <= k < i && wanted(#[trigger] views[k], id);
                assert(views[k].object_id == id);
            }
            if wanted_symbols(views, paths@).contains(id) {
                let k = choose|k: int|
                    0 <= k < views.len() && (#[trigger] views[k]).object_id == id && paths@.contains(views[k].path) && language_of(views[k].path) is Some;
                assert(wanted(views[k], id));
            }
        }
        assert(out@ =~= wanted_symbols(views, paths@));
    }
    out
}

/// Parse the named files of one commit and record what they publish.
///
/// Only the paths given are read; `blobs` holds what was read of them. Fails
/// when a supported analyzer cannot be initialized or a source yields no
/// syntax tree.
pub fn index_symbols(entries: &Vec<TreeEntry>, blobs: &TextMap<BlobContent>, paths: &TextSet) -> (r: Result<SymbolIndex, DiffScopeError>)
    ensures
        symbols_outcome(r) == symbols_from(Map::empty(), entry_views(entries@), 0, blob_map(blobs@), paths@),
{
    let ghost views = entry_views(entries@);
    let ghost held = blob_map(blobs@);
    let mut index = SymbolIndex::new();
    let mut i: usize = 0;
    while i < entries.len()
        invariant
            i <= entries.len(),
            views == entry_views(entries@),
            held == blob_map(blobs@),
            symbols_from(index@, views, i as int, held, paths@) == symbols_from(Map::empty(), views, 0, held, paths@),
        decreases entries.len() - i,
    {
        let path = entries[i].path.as_str();
        assert(views[i as int] == entries@[i as int]@);
        if paths.contains(path) && detect_language(path).is_some() {
            if let Some(BlobContent::Available(source)) = blobs.get(entries[i].object_id.as_str()) {
                match analyze_source(path, source.as_slice()) {
                    Ok(analysis) => {
                        let ghost shown = analysis@;
                        let SourceAnalysis { exported_symbols, re_exported_modules, functions, .. } = analysis;
                        let symbols = FileSymbols { exports: exported_symbols, re_exported_modules, functions };
                        assert(symbols@ =~= shown_symbols(shown));
                        index.insert(path, symbols);
                    },
                    Err(error) => {
                        return Err(error);
                    },
                }
            }
        }
        i = i + 1;
    }
    Ok(index)
}

/// The paths that an index does not cover yet.
#[must_use]
pub fn missing_paths(existing: &SymbolIndex, paths: &TextSet) -> (r: TextSet)
    ensures
        r@ == paths@.difference(existing@.dom()),
{
    let n: usize = paths.len();
    let ghost keys = paths.keys();
    let mut out = TextSet::new();
    let mut i: usize = 0;
    while i < n
        invariant
            n == keys.len(),
            keys == paths.keys(),
            i <= n,
            forall|path: Seq<char>| #[trigger] out@.contains(path) <==> keys.take(i as int).contains(path) && !existing@.contains_key(path),
        decreases n - i,
    {
        let path = paths.key_at(i);
        proof {
            assert(keys.take(i + 1) =~= keys.take(i as int).push(path@));
            crate::collections::lemma_push_contains(keys.take(i as int), path@);
        }
        if !existing.covers(path) {
            out.insert(path.to_owned());
        }
        i = i + 1;
    }
    proof {
        assert(keys.take(n as int) =~= keys);
        assert forall|path: Seq<char>| keys.contains(path) <==> paths@.contains(path) by {
            assert(keys.to_set().contains(path) <==> paths@.contains(path));
        }
        assert(out@ =~= paths@.difference(existing@.dom()));
    }
    out
}

/// The index of some paths that grew out of another.
pub open spec fn extended_symbols(
    existing: Map<Seq<char>, FileSymbolsView>,
    entries: Seq<EntryView>,
    blobs: Map<Seq<char>, BlobView>,
    paths: Set<Seq<char>>,
) -> Result<Map<Seq<char>, FileSymbolsView>, ErrorView> {
    match symbols_from(Map::empty(), entries, 0, blobs, paths.difference(existing.dom())) {
        Ok(found) => Ok(existing.union_prefer_right(found)),
        Err(error) => Err(error),
    }
}

/// Extend one commit's symbol index to cover `paths`, parsing only what is
/// missing.
///
/// Extending rather than rebuilding is what lets a cache keep one index per
/// commit without a later query silently missing a file.
pub fn extend_symbols(entries: &Vec<TreeEntry>, blobs: &TextMap<BlobContent>, existing: SymbolIndex, paths: &TextSet) -> (r: Result<
    SymbolIndex,
    DiffScopeError,
>)
    ensures
        symbols_outcome(r) == extended_symbols(existing@, entry_views(entries@), blob_map(blobs@), paths@),
{
    let missing = missing_paths(&existing, paths);
    match index_symbols(entries, blobs, &missing) {
        Ok(found) => {
            let mut extended = found;
            extended.absorb(existing);
            Ok(extended)
        },
        Err(error) => Err(error),
    }
}

proof fn lemma_symbols_cover(
    files: Map<Seq<char>, FileSymbolsView>,
    entries: Seq<EntryView>,
    i: int,
    blobs: Map<Seq<char>, BlobView>,
    paths: Set<Seq<char>>,
    path: Seq<char>,
)
    ensures
        match symbols_from(files, entries, i, blobs, paths) {
            Ok(found) => {
                &&& files.contains_key(path) ==> found.contains_key(path)
                &&& found.contains_key(path) ==> files.contains_key(path) || paths.contains(path)
                &&& !paths.contains(path) && files.contains_key(path) ==> found[path] == files[path]
            },
            Err(_) => true,
        },
    decreases entries.len() - i,
{
    if 0 <= i < entries.len() {
        if !paths.contains(entries[i].path) || source_of(entries[i], blobs) is None {
            lemma_symbols_cover(files, entries, i + 1, blobs, paths, path);
        } else if let Ok(analysis) = source_outcome(entries[i].path, source_of(entries[i], blobs)->0) {
            lemma_symbols_cover(files.insert(entries[i].path, shown_symbols(analysis)), entries, i + 1, blobs, paths, path);
        }
    }
}

/// Growing an index keeps what it holds: a file it covered is not parsed again
/// and keeps its record, and nothing is covered that was not asked for.
pub proof fn lemma_extending_keeps(
    existing: Map<Seq<char>, FileSymbolsView>,
    entries: Seq<EntryView>,
    blobs: Map<Seq<char>, BlobView>,
    paths: Set<Seq<char>>,
    path: Seq<char>,
)
    requires
        extended_symbols(existing, entries, blobs, paths) is Ok,
    ensures
        existing.contains_key(path) ==> extended_symbols(existing, entries, blobs, paths)->Ok_0.contains_key(path),
        existing.contains_key(path) ==> extended_symbols(existing, entries, blobs, paths)->Ok_0[path] == existing[path],
        extended_symbols(existing, entries, blobs, paths)->Ok_0.contains_key(path) ==> existing.contains_key(path) || paths.contains(path),
{
    lemma_symbols_cover(Map::empty(), entries, 0, blobs, paths.difference(existing.dom()), path);
}

} // verus!

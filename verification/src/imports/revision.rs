//! The import graph of one commit's tree.

use vstd::prelude::*;
use vstd::utf8::{decode_utf8, valid_utf8};

use crate::collections::{lemma_listed, TextMap, TextSet};
use crate::git::blob_map;
use crate::imports::config::{declared_aliases, path_aliases};
use crate::imports::resolve::{alias_views, resolve, AliasView, PathAlias};
use crate::imports::{entry_views, EntryView, ImportIndex, IndexView, TreeEntry};
use crate::languages::modules::{binding_map, BindingView};
use crate::languages::syntax::grammar_fault;
use crate::languages::{detect_language, language_of, scanned, ImportScan, ImportScanner, Language};
use crate::text::{decode, same_text, text_option};
use crate::{BlobContent, BlobView, DiffScopeError, ErrorView};

verus! {

/// The paths of a tree.
pub open spec fn tree_paths(entries: Seq<EntryView>) -> Set<Seq<char>> {
    Set::new(|path: Seq<char>| exists|i: int| 0 <= i < entries.len() && (#[trigger] entries[i]).path == path)
}

fn paths_of(entries: &Vec<TreeEntry>) -> (r: TextSet)
    ensures
        r@ == tree_paths(entry_views(entries@)),
{
    let ghost views = entry_views(entries@);
    let mut out = TextSet::new();
    let mut i: usize = 0;
    while i < entries.len()
        invariant
            i <= entries.len(),
            views == entry_views(entries@),
            forall|path: Seq<char>| #[trigger] out@.contains(path) <==> exists|k: int| 0 <= k < i && (#[trigger] views[k]).path == path,
        decreases entries.len() - i,
    {
        let ghost held = out@;
        assert(views[i as int] == entries@[i as int]@);
        out.insert(entries[i].path.clone());
        proof {
            assert forall|path: Seq<char>| #[trigger] out@.contains(path) <==> exists|k: int| 0 <= k < i + 1 && (#[trigger] views[k]).path == path by {
                if held.contains(path) {
                    let k = choose|k: int| 0 <= k < i && (#[trigger] views[k]).path == path;
                    assert(views[k].path == path);
                }
                if path == views[i as int].path {
                    assert(views[i as int].path == path);
                }
            }
        }
        i = i + 1;
    }
    assert(out@ =~= tree_paths(views));
    out
}

/// The objects of the files whose imports are read.
pub open spec fn wanted_sources(entries: Seq<EntryView>) -> Set<Seq<char>> {
    Set::new(|id: Seq<char>| exists|i: int| 0 <= i < entries.len() && (#[trigger] entries[i]).object_id == id && language_of(entries[i].path) is Some)
}

/// The objects that an index is read from.
#[must_use]
pub fn source_objects(entries: &Vec<TreeEntry>) -> (r: TextSet)
    ensures
        r@ == wanted_sources(entry_views(entries@)),
{
    let ghost views = entry_views(entries@);
    let mut out = TextSet::new();
    let mut i: usize = 0;
    while i < entries.len()
        invariant
            i <= entries.len(),
            views == entry_views(entries@),
            forall|id: Seq<char>| #[trigger]
                out@.contains(id) <==> exists|k: int| 0 <= k < i && (#[trigger] views[k]).object_id == id && language_of(views[k].path) is Some,
        decreases entries.len() - i,
    {
        let ghost held = out@;
        let ghost here = views[i as int];
        assert(here == entries@[i as int]@);
        if detect_language(entries[i].path.as_str()).is_some() {
            out.insert(entries[i].object_id.clone());
        }
        proof {
            assert forall|id: Seq<char>| #[trigger] out@.contains(id) <==> exists|k: int|
                0 <= k < i + 1 && (#[trigger] views[k]).object_id == id && language_of(views[k].path) is Some by {
                if held.contains(id) {
                    let k = choose|k: int| 0 <= k < i && (#[trigger] views[k]).object_id == id && language_of(views[k].path) is Some;
                    assert(views[k].object_id == id);
                }
                if id == here.object_id && language_of(here.path) is Some {
                    assert(views[i as int].object_id == id);
                }
            }
        }
        i = i + 1;
    }
    assert(out@ =~= wanted_sources(views));
    out
}

/// The object of the first `tsconfig.json` at the top of a tree, from a place
/// on.
pub open spec fn config_from(entries: Seq<EntryView>, from: int) -> Option<Seq<char>>
    decreases entries.len() - from,
{
    if from < 0 || from >= entries.len() {
        None
    } else if entries[from].path == "tsconfig.json"@ {
        Some(entries[from].object_id)
    } else {
        config_from(entries, from + 1)
    }
}

/// The object that a revision's path aliases are read from, if it has one.
#[must_use]
pub fn config_object(entries: &Vec<TreeEntry>) -> (r: Option<String>)
    ensures
        text_option(r) == config_from(entry_views(entries@), 0),
{
    let ghost views = entry_views(entries@);
    let mut i: usize = 0;
    while i < entries.len()
        invariant
            i <= entries.len(),
            views == entry_views(entries@),
            config_from(views, i as int) == config_from(views, 0),
        decreases entries.len() - i,
    {
        assert(views[i as int] == entries@[i as int]@);
        if same_text(entries[i].path.as_str(), "tsconfig.json") {
            return Some(entries[i].object_id.clone());
        }
        i = i + 1;
    }
    None
}

/// The aliases that a revision's configuration declares. One that is missing,
/// unreadable or malformed declares none.
pub open spec fn revision_aliases(entries: Seq<EntryView>, blobs: Map<Seq<char>, BlobView>) -> Seq<AliasView> {
    match config_from(entries, 0) {
        Some(id) => if blobs.contains_key(id) {
            match blobs[id] {
                BlobView::Available(bytes) => if valid_utf8(bytes) {
                    declared_aliases(decode_utf8(bytes))
                } else {
                    Seq::empty()
                },
                _ => Seq::empty(),
            }
        } else {
            Seq::empty()
        },
        None => Seq::empty(),
    }
}

/// Read `compilerOptions.paths` from the revision's `tsconfig.json`.
///
/// In a monorepo most cross-package imports are written through these aliases.
/// A missing, unreadable, or malformed config yields no aliases rather than an
/// error: the index is still correct for relative imports.
#[must_use]
pub fn read_path_aliases(entries: &Vec<TreeEntry>, blobs: &TextMap<BlobContent>) -> (r: Vec<PathAlias>)
    ensures
        alias_views(r@) == revision_aliases(entry_views(entries@), blob_map(blobs@)),
{
    let none: Vec<PathAlias> = Vec::new();
    assert(alias_views(none@) =~= Seq::<AliasView>::empty());
    let Some(id) = config_object(entries) else {
        return none;
    };
    match blobs.get(id.as_str()) {
        Some(BlobContent::Available(bytes)) => match decode(bytes.as_slice()) {
            Ok(text) => path_aliases(text.as_str()),
            Err(_) => none,
        },
        _ => none,
    }
}

/// The sentence with which no scanner can be had, if none can.
pub open spec fn scanner_fault() -> Option<ErrorView> {
    let fault = match grammar_fault(Language::TypeScript) {
        Some(fault) => Some(fault),
        None => grammar_fault(Language::Tsx),
    };
    match fault {
        Some(fault) => Some(ErrorView::Language("load TypeScript grammar: "@ + fault)),
        None => None,
    }
}

/// The bytes of a source file that was read.
pub open spec fn source_of(entry: EntryView, blobs: Map<Seq<char>, BlobView>) -> Option<Seq<u8>> {
    if language_of(entry.path) is Some && blobs.contains_key(entry.object_id) {
        match blobs[entry.object_id] {
            BlobView::Available(bytes) => Some(bytes),
            _ => None,
        }
    } else {
        None
    }
}

/// An index with the entries of a tree from a place on, each source file that
/// was read with what its scan found; the first that fails fails the index.
pub open spec fn indexed_from(
    state: IndexView,
    entries: Seq<EntryView>,
    i: int,
    blobs: Map<Seq<char>, BlobView>,
    paths: Set<Seq<char>>,
    aliases: Seq<AliasView>,
) -> Result<IndexView, ErrorView>
    decreases entries.len() - i,
{
    if i < 0 || i >= entries.len() {
        Ok(state)
    } else {
        match source_of(entries[i], blobs) {
            None => indexed_from(state, entries, i + 1, blobs, paths, aliases),
            Some(bytes) => match scanned(entries[i].path, bytes) {
                Err(error) => Err(error),
                Ok(scan) => indexed_from(state.with_scan(entries[i].path, scan, paths, aliases), entries, i + 1, blobs, paths, aliases),
            },
        }
    }
}

/// The index of a revision.
pub open spec fn revision_index(entries: Seq<EntryView>, blobs: Map<Seq<char>, BlobView>) -> Result<IndexView, ErrorView> {
    match scanner_fault() {
        Some(error) => Err(error),
        None => indexed_from(IndexView::empty(), entries, 0, blobs, tree_paths(entries), revision_aliases(entries, blobs)),
    }
}

impl ImportIndex {
    /// Record what the scan of one file found.
    pub fn add_scan(&mut self, path: &str, scan: ImportScan, paths: &TextSet, aliases: &Vec<PathAlias>)
        ensures
            final(self)@ == old(self)@.with_scan(path@, scan@, paths@, alias_views(aliases@)),
    {
        let ghost given = self@;
        let ghost views = alias_views(aliases@);
        let ghost seen = scan@;
        let ImportScan { specifiers, bindings, truncated } = scan;
        self.enter(path, truncated);
        let ghost entered = self@;
        let n: usize = specifiers.len();
        let ghost names = specifiers.keys();
        let ghost lines = specifiers@;
        let mut i: usize = 0;
        assert(names.take(0) =~= Seq::<Seq<char>>::empty());
        while i < n
            invariant
                n == names.len(),
                names == specifiers.keys(),
                lines == specifiers@,
                i <= n,
                views == alias_views(aliases@),
                self@ == entered.with_specifiers(path@, names.take(i as int), lines, paths@, views),
            decreases n - i,
        {
            let specifier = specifiers.key_at(i);
            let line: u32 = *specifiers.value_at(i);
            assert(names.take(i + 1).drop_last() =~= names.take(i as int));
            let target = resolve(specifier, path, paths, aliases);
            self.add_specifier(path, specifier, line, target);
            i = i + 1;
        }
        proof {
            assert(names.take(n as int) =~= names);
            lemma_listed(names);
            assert(names.to_set() =~= lines.dom());
        }
        if !bindings.is_empty() {
            proof {
                let key = bindings.keys()[0];
                assert(bindings.keys().contains(key));
                assert(binding_map(bindings@).contains_key(key));
                assert(seen.bindings != Map::<Seq<char>, BindingView>::empty());
            }
            self.set_bindings(path, bindings);
        } else {
            assert(seen.bindings =~= Map::<Seq<char>, BindingView>::empty());
        }
    }
}

/// Build the import graph of one commit's tree.
///
/// `blobs` holds what was read of the source files and of the configuration.
/// Fails when a supported analyzer cannot be initialized, or a source yields
/// no syntax tree.
pub fn index_revision(entries: &Vec<TreeEntry>, blobs: &TextMap<BlobContent>) -> (r: Result<ImportIndex, DiffScopeError>)
    ensures
        match r {
            Ok(index) => revision_index(entry_views(entries@), blob_map(blobs@)) == Ok::<IndexView, ErrorView>(index@),
            Err(error) => revision_index(entry_views(entries@), blob_map(blobs@)) == Err::<IndexView, ErrorView>(error@),
        },
{
    let paths = paths_of(entries);
    let aliases = read_path_aliases(entries, blobs);
    let scanner = match ImportScanner::new() {
        Ok(scanner) => scanner,
        Err(error) => {
            return Err(error);
        },
    };
    let ghost views = entry_views(entries@);
    let ghost held = blob_map(blobs@);
    let ghost names = alias_views(aliases@);
    let mut index = ImportIndex::new();
    let mut i: usize = 0;
    while i < entries.len()
        invariant
            i <= entries.len(),
            scanner.ready(),
            scanner_fault() is None,
            views == entry_views(entries@),
            held == blob_map(blobs@),
            paths@ == tree_paths(views),
            names == alias_views(aliases@),
            names == revision_aliases(views, held),
            indexed_from(index@, views, i as int, held, paths@, names) == revision_index(views, held),
        decreases entries.len() - i,
    {
        let path = entries[i].path.as_str();
        assert(views[i as int] == entries@[i as int]@);
        if detect_language(path).is_some() {
            if let Some(BlobContent::Available(source)) = blobs.get(entries[i].object_id.as_str()) {
                match scanner.scan(path, source.as_slice()) {
                    Ok(scan) => {
                        index.add_scan(path, scan, &paths, &aliases);
                    },
                    Err(error) => {
                        return Err(error);
                    },
                }
            }
        }
        i = i + 1;
    }
    Ok(index)
}

} // verus!

//! What is indexed of a revision.

use vstd::prelude::*;

use crate::collections::listed;
use crate::imports::resolve::{resolved, AliasView};
use crate::imports::revision::{indexed_from, source_of, wanted_sources};
use crate::imports::symbols::{shown_symbols, symbols_from, wanted_symbols, FileSymbolsView};
use crate::imports::tree::{listed_entries, tree_entry};
use crate::imports::{EntryView, IndexView};
use crate::languages::modules::{facts_from, BindingView, FactsView};
use crate::languages::syntax::NodeView;
use crate::languages::{language_of, scanned, source_outcome, ScanView};
use crate::laws::words::lemma_finite_is_listed;
use crate::git::text_in;
use crate::{BlobView, ErrorView};

verus! {

/// Whether a scan names a module that leads to a file.
pub open spec fn leads(scan: ScanView, path: Seq<char>, to: Seq<char>, paths: Set<Seq<char>>, aliases: Seq<AliasView>, specifier: Seq<char>) -> bool {
    scan.specifiers.contains_key(specifier) && resolved(specifier, path, paths, aliases) == Some(to)
}

/// Whether one of some specifiers leads to a file.
spec fn some_leads(specifiers: Seq<Seq<char>>, path: Seq<char>, to: Seq<char>, paths: Set<Seq<char>>, aliases: Seq<AliasView>) -> bool {
    exists|k: int| 0 <= k < specifiers.len() && resolved(#[trigger] specifiers[k], path, paths, aliases) == Some(to)
}

proof fn lemma_specifiers(
    index: IndexView,
    path: Seq<char>,
    specifiers: Seq<Seq<char>>,
    lines: Map<Seq<char>, u32>,
    paths: Set<Seq<char>>,
    aliases: Seq<AliasView>,
    a: Seq<char>,
    b: Seq<char>,
)
    ensures
        ({
            let out = index.with_specifiers(path, specifiers, lines, paths, aliases);
            &&& out.edges.contains((a, b)) <==> index.edges.contains((a, b)) || (a == path && some_leads(specifiers, path, b, paths, aliases))
            &&& out.files == index.files
            &&& out.truncated == index.truncated
            &&& out.bindings == index.bindings
        }),
    decreases specifiers.len(),
{
    let n = specifiers.len() as int;
    if n > 0 {
        let fewer = specifiers.drop_last();
        lemma_specifiers(index, path, fewer, lines, paths, aliases, a, b);
        assert(specifiers[n - 1] == specifiers.last());
        if some_leads(fewer, path, b, paths, aliases) {
            let k = choose|k: int| 0 <= k < fewer.len() && resolved(#[trigger] fewer[k], path, paths, aliases) == Some(b);
            assert(specifiers[k] == fewer[k]);
        }
        if some_leads(specifiers, path, b, paths, aliases) {
            let k = choose|k: int| 0 <= k < specifiers.len() && resolved(#[trigger] specifiers[k], path, paths, aliases) == Some(b);
            if k < n - 1 {
                assert(fewer[k] == specifiers[k]);
            }
        }
    }
}

/// A file that was read imports what its specifiers lead to, is marked where it
/// was read in part, and keeps its bindings.
pub proof fn lemma_scan_is_indexed(
    index: IndexView,
    path: Seq<char>,
    scan: ScanView,
    paths: Set<Seq<char>>,
    aliases: Seq<AliasView>,
    a: Seq<char>,
    b: Seq<char>,
)
    requires
        scan.specifiers.dom().finite(),
    ensures
        ({
            let out = index.with_scan(path, scan, paths, aliases);
            &&& out.edges.contains((a, b)) <==> index.edges.contains((a, b)) || (a == path && exists|specifier: Seq<char>| #[trigger]
                leads(scan, path, b, paths, aliases, specifier))
            &&& out.files.contains(a) <==> index.files.contains(a) || a == path
            &&& out.truncated.contains(a) <==> index.truncated.contains(a) || (a == path && scan.truncated)
            &&& scan.bindings != Map::<Seq<char>, BindingView>::empty() ==> out.bindings.contains_key(path) && out.bindings[path] == scan.bindings
            &&& a != path ==> (out.bindings.contains_key(a) <==> index.bindings.contains_key(a))
        }),
{
    let specifiers = listed(scan.specifiers.dom());
    lemma_finite_is_listed(scan.specifiers.dom());
    let entered = IndexView {
        files: index.files.insert(path),
        truncated: if scan.truncated {
            index.truncated.insert(path)
        } else {
            index.truncated
        },
        ..index
    };
    lemma_specifiers(entered, path, specifiers, scan.specifiers, paths, aliases, a, b);
    if some_leads(specifiers, path, b, paths, aliases) {
        let k = choose|k: int| 0 <= k < specifiers.len() && resolved(#[trigger] specifiers[k], path, paths, aliases) == Some(b);
        assert(specifiers.contains(specifiers[k]));
        assert(specifiers.to_set().contains(specifiers[k]));
        assert(leads(scan, path, b, paths, aliases, specifiers[k]));
    }
    if exists|specifier: Seq<char>| #[trigger] leads(scan, path, b, paths, aliases, specifier) {
        let specifier = choose|specifier: Seq<char>| #[trigger] leads(scan, path, b, paths, aliases, specifier);
        assert(specifiers.to_set().contains(specifier));
        let k = choose|k: int| 0 <= k < specifiers.len() && specifiers[k] == specifier;
        assert(resolved(specifiers[k], path, paths, aliases) == Some(b));
    }
}

proof fn lemma_facts_finite(state: FactsView, nodes: Seq<NodeView>, i: int, source: Seq<char>)
    requires
        state.specifiers.dom().finite(),
        facts_from(state, nodes, i, source) is Ok,
    ensures
        facts_from(state, nodes, i, source)->Ok_0.specifiers.dom().finite(),
    decreases nodes.len() - i,
{
    if 0 <= i < nodes.len() {
        lemma_facts_finite(state.after_node(nodes, i, source)->Ok_0, nodes, i + 1, source);
    }
}

proof fn lemma_scan_finite(path: Seq<char>, source: Seq<u8>)
    requires
        scanned(path, source) is Ok,
    ensures
        scanned(path, source)->Ok_0.specifiers.dom().finite(),
{
    if let Some(language) = language_of(path) {
        let head = crate::languages::import_head(source);
        let facts = crate::languages::imported_facts(language, head)->Ok_0;
        if vstd::utf8::valid_utf8(head) {
            let text = vstd::utf8::decode_utf8(head);
            let nodes = crate::languages::syntax::syntax_tree(language, text)->0;
            lemma_facts_finite(FactsView::empty(), nodes, 0, text);
        }
        assert(facts.specifiers.dom().finite());
        assert(facts.specifiers.remove(Seq::empty()).dom() =~= facts.specifiers.dom().remove(Seq::empty()));
    } else {
        assert(FactsView::empty().specifiers.remove(Seq::empty()).dom() =~= Set::empty());
    }
}

/// The bytes of an entry that can be read: it is of a language that is
/// analysed, and its object is there.
pub open spec fn bytes_of(entry: EntryView, blobs: Map<Seq<char>, BlobView>, bytes: Seq<u8>) -> bool {
    language_of(entry.path) is Some && blobs.contains_key(entry.object_id) && blobs[entry.object_id] == BlobView::Available(bytes)
}

/// Whether an entry imports a file.
pub open spec fn imports(
    entry: EntryView,
    blobs: Map<Seq<char>, BlobView>,
    paths: Set<Seq<char>>,
    aliases: Seq<AliasView>,
    to: Seq<char>,
    bytes: Seq<u8>,
    specifier: Seq<char>,
) -> bool {
    bytes_of(entry, blobs, bytes) && (scanned(entry.path, bytes) matches Ok(scan) && leads(scan, entry.path, to, paths, aliases, specifier))
}

/// Whether one of the entries from a place on imports a file.
pub open spec fn some_imports(
    entries: Seq<EntryView>,
    from: int,
    blobs: Map<Seq<char>, BlobView>,
    paths: Set<Seq<char>>,
    aliases: Seq<AliasView>,
    a: Seq<char>,
    b: Seq<char>,
) -> bool {
    exists|k: int, bytes: Seq<u8>, specifier: Seq<char>|
        from <= k < entries.len() && entries[k].path == a && #[trigger] imports(entries[k], blobs, paths, aliases, b, bytes, specifier)
}

proof fn lemma_indexed(
    state: IndexView,
    entries: Seq<EntryView>,
    i: int,
    blobs: Map<Seq<char>, BlobView>,
    paths: Set<Seq<char>>,
    aliases: Seq<AliasView>,
    a: Seq<char>,
    b: Seq<char>,
)
    requires
        0 <= i <= entries.len(),
        indexed_from(state, entries, i, blobs, paths, aliases) is Ok,
    ensures
        indexed_from(state, entries, i, blobs, paths, aliases)->Ok_0.edges.contains((a, b)) <==> state.edges.contains((a, b)) || some_imports(
            entries,
            i,
            blobs,
            paths,
            aliases,
            a,
            b,
        ),
    decreases entries.len() - i,
{
    if i < entries.len() {
        let entry = entries[i];
        match source_of(entry, blobs) {
            None => {
                lemma_indexed(state, entries, i + 1, blobs, paths, aliases, a, b);
            },
            Some(bytes) => {
                let scan = scanned(entry.path, bytes)->Ok_0;
                let next = state.with_scan(entry.path, scan, paths, aliases);
                lemma_scan_finite(entry.path, bytes);
                lemma_scan_is_indexed(state, entry.path, scan, paths, aliases, a, b);
                lemma_indexed(next, entries, i + 1, blobs, paths, aliases, a, b);
                assert(bytes_of(entry, blobs, bytes));
                if a == entry.path && exists|specifier: Seq<char>| #[trigger] leads(scan, entry.path, b, paths, aliases, specifier) {
                    let specifier = choose|specifier: Seq<char>| #[trigger] leads(scan, entry.path, b, paths, aliases, specifier);
                    assert(imports(entries[i], blobs, paths, aliases, b, bytes, specifier));
                }
            },
        }
        if some_imports(entries, i + 1, blobs, paths, aliases, a, b) {
            let (k, bytes, specifier) = choose|k: int, bytes: Seq<u8>, specifier: Seq<char>|
                i + 1 <= k < entries.len() && entries[k].path == a && #[trigger] imports(entries[k], blobs, paths, aliases, b, bytes, specifier);
            assert(imports(entries[k], blobs, paths, aliases, b, bytes, specifier));
        }
        if some_imports(entries, i, blobs, paths, aliases, a, b) {
            let (k, bytes, specifier) = choose|k: int, bytes: Seq<u8>, specifier: Seq<char>|
                i <= k < entries.len() && entries[k].path == a && #[trigger] imports(entries[k], blobs, paths, aliases, b, bytes, specifier);
            if k == i {
                assert(source_of(entry, blobs) == Some(bytes));
                let scan = scanned(entry.path, bytes)->Ok_0;
                assert(leads(scan, entry.path, b, paths, aliases, specifier));
            } else {
                assert(imports(entries[k], blobs, paths, aliases, b, bytes, specifier));
            }
        }
    }
}

/// One file imports another in a revision where it was read and names a module
/// that leads there, and only there.
pub proof fn lemma_index_holds_the_imports(
    entries: Seq<EntryView>,
    blobs: Map<Seq<char>, BlobView>,
    paths: Set<Seq<char>>,
    aliases: Seq<AliasView>,
    a: Seq<char>,
    b: Seq<char>,
)
    requires
        indexed_from(IndexView::empty(), entries, 0, blobs, paths, aliases) is Ok,
    ensures
        indexed_from(IndexView::empty(), entries, 0, blobs, paths, aliases)->Ok_0.importers_of(b).contains(a) <==> some_imports(
            entries,
            0,
            blobs,
            paths,
            aliases,
            a,
            b,
        ),
{
    lemma_indexed(IndexView::empty(), entries, 0, blobs, paths, aliases, a, b);
}

/// The objects that are read are those of the entries of a language that is
/// analysed.
pub proof fn lemma_objects_wanted(entries: Seq<EntryView>, paths: Set<Seq<char>>, i: int, id: Seq<char>)
    ensures
        0 <= i < entries.len() && language_of(entries[i].path) is Some ==> wanted_sources(entries).contains(entries[i].object_id),
        wanted_sources(entries).contains(id) ==> exists|k: int|
            0 <= k < entries.len() && (#[trigger] entries[k]).object_id == id && language_of(entries[k].path) is Some,
        0 <= i < entries.len() && language_of(entries[i].path) is Some && paths.contains(entries[i].path) ==> wanted_symbols(entries, paths).contains(
            entries[i].object_id,
        ),
        wanted_symbols(entries, paths).contains(id) ==> exists|k: int|
            0 <= k < entries.len() && (#[trigger] entries[k]).object_id == id && language_of(entries[k].path) is Some && paths.contains(entries[k].path),
{
}

/// Whether symbols are those of an entry that was read.
pub open spec fn symbols_are_of(entry: EntryView, blobs: Map<Seq<char>, BlobView>, found: FileSymbolsView, bytes: Seq<u8>) -> bool {
    bytes_of(entry, blobs, bytes) && (source_outcome(entry.path, bytes) matches Ok(analysis) && found.exports == analysis.surface.symbols
        && found.re_exported_modules == analysis.surface.modules && found.functions == analysis.functions)
}

proof fn lemma_symbols_found(
    files: Map<Seq<char>, FileSymbolsView>,
    entries: Seq<EntryView>,
    i: int,
    blobs: Map<Seq<char>, BlobView>,
    paths: Set<Seq<char>>,
    path: Seq<char>,
)
    requires
        0 <= i <= entries.len(),
        symbols_from(files, entries, i, blobs, paths) is Ok,
    ensures
        ({
            let out = symbols_from(files, entries, i, blobs, paths)->Ok_0;
            &&& files.contains_key(path) ==> out.contains_key(path)
            &&& !paths.contains(path) ==> (out.contains_key(path) <==> files.contains_key(path))
            &&& out.contains_key(path) && !(files.contains_key(path) && out[path] == files[path]) ==> exists|k: int, bytes: Seq<u8>|
                i <= k < entries.len() && entries[k].path == path && #[trigger] symbols_are_of(entries[k], blobs, out[path], bytes)
        }),
    decreases entries.len() - i,
{
    if i < entries.len() {
        let entry = entries[i];
        if paths.contains(entry.path) && source_of(entry, blobs) is Some {
            let bytes = source_of(entry, blobs)->0;
            let analysis = source_outcome(entry.path, bytes)->Ok_0;
            let next = files.insert(entry.path, shown_symbols(analysis));
            lemma_symbols_found(next, entries, i + 1, blobs, paths, path);
            let out = symbols_from(files, entries, i, blobs, paths)->Ok_0;
            if path == entry.path && out[path] == next[path] {
                assert(symbols_are_of(entries[i], blobs, out[path], bytes));
            }
        } else {
            lemma_symbols_found(files, entries, i + 1, blobs, paths, path);
        }
    }
}

/// The symbols of a file are those of its source in the revision, and no file
/// that was not asked for has any.
pub proof fn lemma_symbols_are_of_sources(entries: Seq<EntryView>, blobs: Map<Seq<char>, BlobView>, paths: Set<Seq<char>>, path: Seq<char>)
    requires
        symbols_from(Map::empty(), entries, 0, blobs, paths) is Ok,
    ensures
        ({
            let out = symbols_from(Map::empty(), entries, 0, blobs, paths)->Ok_0;
            &&& out.contains_key(path) ==> paths.contains(path)
            &&& out.contains_key(path) ==> exists|k: int, bytes: Seq<u8>|
                0 <= k < entries.len() && entries[k].path == path && #[trigger] symbols_are_of(entries[k], blobs, out[path], bytes)
        }),
{
    lemma_symbols_found(Map::empty(), entries, 0, blobs, paths, path);
}

/// A tree lists an entry for each of its records, in their order.
pub proof fn lemma_tree_lists_entries(all: Seq<Seq<u8>>, i: int)
    requires
        listed_entries(all) is Ok,
        0 <= i < all.len(),
    ensures
        listed_entries(all)->Ok_0.len() == all.len(),
        text_in(all[i], "tree entry"@) matches Ok(text) && tree_entry(text) == Some(listed_entries(all)->Ok_0[i]),
    decreases all.len(),
{
    let n = all.len() as int;
    let fewer = all.drop_last();
    if i < n - 1 {
        lemma_tree_lists_entries(fewer, i);
        assert(fewer[i] == all[i]);
    } else {
        if n > 1 {
            lemma_tree_lists_entries(fewer, 0);
        } else {
            assert(listed_entries(fewer) == Ok::<Seq<EntryView>, ErrorView>(Seq::empty()));
        }
        assert(all.last() == all[i]);
    }
}

} // verus!

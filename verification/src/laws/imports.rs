//! Where an import leads, and what the index of imports holds.

use vstd::prelude::*;
use vstd::utf8::encode_utf8;

use crate::imports::config::{alias_rank, configured_paths, entry_targets, is_configured, strings_in, uncommented, untrailed, Json};
use crate::imports::resolve::{
    aliased, directory_segments, extended, file_named, filled, normalized, parent_of, resolved, slashes, through_aliases, walked, without_dots,
    AliasView,
};
use crate::imports::revision::config_from;
use crate::imports::symbols::{defined, FileSymbolsView, FoundView};
use crate::imports::tree::tree_entry;
use crate::imports::{EntryView, IndexView};
use crate::laws::git::{is_word, lemma_words_part_at_spaces};
use crate::laws::words::{lacks, lemma_path_splits, lemma_span_up_to, path_to, plain};
use crate::text::{before, interposed, is_space, lemma_last_of, trim_end_by, words, Rank};

verus! {

/// The names a file may have that a module path stands for, the preferred
/// first.
pub open spec fn names_for(stem: Seq<char>) -> Seq<Seq<char>> {
    seq![
        stem + ".ts"@,
        stem + ".tsx"@,
        stem + ".mts"@,
        stem + ".cts"@,
        stem + ".d.ts"@,
        stem + ".js"@,
        stem + ".jsx"@,
        stem + "/index.ts"@,
        stem + "/index.tsx"@,
        stem + "/index.mts"@,
        stem + "/index.cts"@,
        stem + "/index.d.ts"@,
        stem + "/index.js"@,
        stem + "/index.jsx"@,
    ]
}

/// Whether none of the first names exists.
pub open spec fn none_of_first(names: Seq<Seq<char>>, n: int, paths: Set<Seq<char>>) -> bool {
    forall|j: int| 0 <= j < n ==> !paths.contains(#[trigger] names[j])
}

#[verifier::rlimit(60)]
#[verifier::spinoff_prover]
proof fn lemma_names(stem: Seq<char>)
    ensures
        ({
            let names = names_for(stem);
            let inner = stem + "/"@ + "index"@;
            &&& names[0] == stem + "."@ + "ts"@
            &&& names[1] == stem + "."@ + "tsx"@
            &&& names[2] == stem + "."@ + "mts"@
            &&& names[3] == stem + "."@ + "cts"@
            &&& names[4] == stem + "."@ + "d.ts"@
            &&& names[5] == stem + "."@ + "js"@
            &&& names[6] == stem + "."@ + "jsx"@
            &&& names[7] == inner + "."@ + "ts"@
            &&& names[8] == inner + "."@ + "tsx"@
            &&& names[9] == inner + "."@ + "mts"@
            &&& names[10] == inner + "."@ + "cts"@
            &&& names[11] == inner + "."@ + "d.ts"@
            &&& names[12] == inner + "."@ + "js"@
            &&& names[13] == inner + "."@ + "jsx"@
        }),
{
    reveal_strlit(".");
    reveal_strlit("ts");
    reveal_strlit("tsx");
    reveal_strlit("mts");
    reveal_strlit("cts");
    reveal_strlit("d.ts");
    reveal_strlit("js");
    reveal_strlit("jsx");
    reveal_strlit(".ts");
    reveal_strlit(".tsx");
    reveal_strlit(".mts");
    reveal_strlit(".cts");
    reveal_strlit(".d.ts");
    reveal_strlit(".js");
    reveal_strlit(".jsx");
    reveal_strlit("/");
    reveal_strlit("index");
    reveal_strlit("/index.ts");
    reveal_strlit("/index.tsx");
    reveal_strlit("/index.mts");
    reveal_strlit("/index.cts");
    reveal_strlit("/index.d.ts");
    reveal_strlit("/index.js");
    reveal_strlit("/index.jsx");
    let names = names_for(stem);
    let inner = stem + "/"@ + "index"@;
    assert(names[0] =~= stem + "."@ + "ts"@);
    assert(names[1] =~= stem + "."@ + "tsx"@);
    assert(names[2] =~= stem + "."@ + "mts"@);
    assert(names[3] =~= stem + "."@ + "cts"@);
    assert(names[4] =~= stem + "."@ + "d.ts"@);
    assert(names[5] =~= stem + "."@ + "js"@);
    assert(names[6] =~= stem + "."@ + "jsx"@);
    assert(names[7] =~= inner + "."@ + "ts"@);
    assert(names[8] =~= inner + "."@ + "tsx"@);
    assert(names[9] =~= inner + "."@ + "mts"@);
    assert(names[10] =~= inner + "."@ + "cts"@);
    assert(names[11] =~= inner + "."@ + "d.ts"@);
    assert(names[12] =~= inner + "."@ + "js"@);
    assert(names[13] =~= inner + "."@ + "jsx"@);
}

/// A path is taken as it is written where it neither starts at the current
/// directory nor ends in a slash.
pub proof fn lemma_plain_path_is_kept(path: Seq<char>)
    ensures
        path.len() > 0 && path.last() != '/' && !(path.len() >= 2 && path[0] == '.' && path[1] == '/') ==> normalized(path) == path,
        normalized(seq!['.', '/'] + path) == normalized(path),
        path.len() > 0 && path.last() != '.' && path.last() != '/' ==> normalized(path + seq!['/']) == normalized(path),
{
    let dotted = seq!['.', '/'] + path;
    assert(dotted.skip(2) =~= path);
    if path.len() > 0 && path.last() != '.' && path.last() != '/' {
        lemma_trailing_slash(path);
    }
}

proof fn lemma_trailing_slash(path: Seq<char>)
    requires
        path.len() > 0,
        path.last() != '.',
        path.last() != '/',
    ensures
        normalized(path + seq!['/']) == normalized(path),
    decreases path.len(),
{
    let longer = path + seq!['/'];
    if path.len() >= 2 && path[0] == '.' && path[1] == '/' {
        assert(longer.skip(2) =~= path.skip(2) + seq!['/']);
        assert(path.skip(2).last() == path.last());
        lemma_trailing_slash(path.skip(2));
    } else {
        assert(without_dots(longer) == longer) by {
            if path.len() == 1 {
                assert(longer[0] == path[0]);
            } else {
                assert(longer[0] == path[0] && longer[1] == path[1]);
            }
        }
        assert(longer.last() == '/');
        assert(longer.drop_last() =~= path);
        assert(trim_end_by(longer, slashes()) == trim_end_by(path, slashes()));
    }
}

proof fn lemma_none(names: Seq<Seq<char>>, n: int, paths: Set<Seq<char>>)
    requires
        none_of_first(names, n, paths),
    ensures
        n > 0 ==> !paths.contains(names[0]),
        n > 1 ==> !paths.contains(names[1]),
        n > 2 ==> !paths.contains(names[2]),
        n > 3 ==> !paths.contains(names[3]),
        n > 4 ==> !paths.contains(names[4]),
        n > 5 ==> !paths.contains(names[5]),
        n > 6 ==> !paths.contains(names[6]),
        n > 7 ==> !paths.contains(names[7]),
        n > 8 ==> !paths.contains(names[8]),
        n > 9 ==> !paths.contains(names[9]),
        n > 10 ==> !paths.contains(names[10]),
        n > 11 ==> !paths.contains(names[11]),
        n > 12 ==> !paths.contains(names[12]),
        n > 13 ==> !paths.contains(names[13]),
{
}

/// A module path stands for the file of that name where the name has a dot,
/// and else for the first that exists of the names a file may have.
#[verifier::rlimit(60)]
#[verifier::spinoff_prover]
pub proof fn lemma_module_is_first_that_exists(stem: Seq<char>, paths: Set<Seq<char>>, k: int)
    requires
        normalized(stem) == stem,
    ensures
        paths.contains(stem) && stem.contains('.') ==> file_named(stem, paths) == Some(stem),
        !(paths.contains(stem) && stem.contains('.')) && 0 <= k < 14 && paths.contains(names_for(stem)[k]) && none_of_first(names_for(stem), k, paths)
            ==> file_named(stem, paths) == Some(names_for(stem)[k]),
        !(paths.contains(stem) && stem.contains('.')) && none_of_first(names_for(stem), 14, paths) ==> file_named(stem, paths) is None,
{
    lemma_names(stem);
    let names = names_for(stem);
    reveal_with_fuel(extended, 8);
    if none_of_first(names, 14, paths) {
        lemma_none(names, 14, paths);
    }
    if none_of_first(names, k, paths) {
        lemma_none(names, k, paths);
    }
}

proof fn lemma_walks(segments: Seq<Seq<char>>, pieces: Seq<Seq<char>>, more: Seq<Seq<char>>)
    ensures
        walked(segments, pieces + more) == walked(walked(segments, pieces), more),
    decreases more.len(),
{
    if more.len() == 0 {
        assert(pieces + more =~= pieces);
    } else {
        lemma_walks(segments, pieces, more.drop_last());
        assert((pieces + more).drop_last() =~= pieces + more.drop_last());
        assert((pieces + more).last() == more.last());
    }
}

/// Whether names are each a real step down.
pub open spec fn go_down(names: Seq<Seq<char>>) -> bool {
    forall|i: int| 0 <= i < names.len() ==> (#[trigger] names[i]).len() > 0 && names[i] != "."@ && names[i] != ".."@
}

proof fn lemma_steps_down(segments: Seq<Seq<char>>, names: Seq<Seq<char>>)
    requires
        go_down(names),
    ensures
        walked(segments, names) == segments + names,
    decreases names.len(),
{
    if names.len() == 0 {
        assert(segments + names =~= segments);
    } else {
        let n = names.len() as int;
        let fewer = names.drop_last();
        assert forall|i: int| 0 <= i < fewer.len() implies (#[trigger] fewer[i]).len() > 0 && fewer[i] != "."@ && fewer[i] != ".."@ by {
            assert(fewer[i] == names[i]);
        }
        lemma_steps_down(segments, fewer);
        assert(names[n - 1] == names.last());
        assert((segments + fewer).push(names.last()) =~= segments + names);
    }
}

/// As many steps up.
pub open spec fn ups(n: nat) -> Seq<Seq<char>> {
    Seq::new(n, |i: int| ".."@)
}

proof fn lemma_steps_up(segments: Seq<Seq<char>>, n: nat)
    requires
        n <= segments.len(),
    ensures
        walked(segments, ups(n)) == segments.take(segments.len() - n),
    decreases n,
{
    reveal_strlit(".");
    reveal_strlit("..");
    if n == 0 {
        assert(segments.take(segments.len() as int) =~= segments);
    } else {
        lemma_steps_up(segments, (n - 1) as nat);
        assert(ups(n).drop_last() =~= ups((n - 1) as nat));
        assert(ups(n).last() == ".."@);
        assert(segments.take(segments.len() - (n - 1)).drop_last() =~= segments.take(segments.len() - n));
    }
}

proof fn lemma_interposed(directories: Seq<Seq<char>>, name: Seq<char>)
    ensures
        interposed(directories.push(name), "/"@) == path_to(directories, name),
    decreases directories.len(),
{
    reveal_strlit("/");
    let all = directories.push(name);
    if directories.len() > 0 {
        lemma_interposed(directories.drop_last(), directories.last());
        assert(all.drop_last() =~= directories);
        assert(directories =~= directories.drop_last().push(directories.last()));
        lemma_path_to_end(directories, name);
        assert("/"@ =~= seq!['/']);
    }
}

proof fn lemma_path_to_end(directories: Seq<Seq<char>>, name: Seq<char>)
    requires
        directories.len() > 0,
    ensures
        path_to(directories, name) == path_to(directories.drop_last(), directories.last()) + seq!['/'] + name,
    decreases directories.len(),
{
    if directories.len() > 1 {
        let rest = directories.drop_first();
        lemma_path_to_end(rest, name);
        assert(rest.drop_last() =~= directories.drop_last().drop_first());
        let inner = path_to(rest.drop_last(), rest.last());
        assert(rest.last() == directories.last());
        assert(directories.drop_last()[0] == directories[0]);
        assert(path_to(directories.drop_last(), directories.last()) == directories[0] + seq!['/'] + inner);
        assert(directories[0] + seq!['/'] + (inner + seq!['/'] + name) =~= (directories[0] + seq!['/'] + inner) + seq!['/'] + name);
    } else {
        assert(path_to(directories.drop_first(), name) == name);
        assert(path_to(directories.drop_last(), directories.last()) == directories[0]);
    }
}

/// The directory of a file.
pub proof fn lemma_parent_is_directory(directories: Seq<Seq<char>>, name: Seq<char>)
    requires
        plain(directories, name),
    ensures
        directories.len() == 0 ==> parent_of(path_to(directories, name)) == Seq::<char>::empty(),
        directories.len() > 0 ==> parent_of(path_to(directories, name)) == path_to(directories.drop_last(), directories.last()),
{
    let path = path_to(directories, name);
    if directories.len() == 0 {
        lemma_last_of(name, '/', name.len());
    } else {
        lemma_path_to_end(directories, name);
        let head = path_to(directories.drop_last(), directories.last());
        assert(path == head + seq!['/'] + name);
        assert forall|k: int| head.len() < k < path.len() implies #[trigger] path[k] != '/' by {
            assert(path[k] == name[k - head.len() - 1]);
        }
        assert(path[head.len() as int] == '/');
        lemma_last_of(path, '/', head.len());
        assert(path.take(head.len() as int) =~= head);
    }
}

/// A relative import leads to the file that it names, seen from the directory
/// of the importer: up once for each double dot, and then down.
#[verifier::rlimit(60)]
#[verifier::spinoff_prover]
pub proof fn lemma_relative_import(
    directories: Seq<Seq<char>>,
    importer: Seq<char>,
    up: nat,
    down: Seq<Seq<char>>,
    name: Seq<char>,
    paths: Set<Seq<char>>,
    aliases: Seq<AliasView>,
)
    requires
        plain(directories, importer),
        go_down(directories),
        up <= directories.len(),
        plain(down, name),
        go_down(down.push(name)),
    ensures
        ({
            let target = path_to(directories.take(directories.len() - up) + down, name);
            let from = path_to(directories, importer);
            &&& up > 0 ==> resolved(path_to(ups(up) + down, name), from, paths, aliases) == file_named(target, paths)
            &&& up == 0 ==> resolved(path_to(seq!["."@] + down, name), from, paths, aliases) == file_named(target, paths)
        }),
{
    reveal_strlit(".");
    reveal_strlit("..");
    let n = directories.len() as int;
    let from = path_to(directories, importer);
    let kept = directories.take(n - up);
    lemma_parent_is_directory(directories, importer);
    assert(directory_segments(parent_of(from)) == directories) by {
        if n > 0 {
            let inner = directories.drop_last();
            assert(plain(inner, directories.last())) by {
                assert(lacks(directories[n - 1], '/'));
                assert forall|i: int| 0 <= i < inner.len() implies lacks(#[trigger] inner[i], '/') by {
                    assert(inner[i] == directories[i]);
                }
            }
            lemma_path_splits(inner, directories.last());
            assert(inner.push(directories.last()) =~= directories);
            assert(path_to(inner, directories.last()).len() > 0) by {
                assert(directories[n - 1].len() > 0);
                if inner.len() > 0 {
                    lemma_path_to_end(inner, directories.last());
                    assert(inner[0] == directories[0]);
                }
            }
        } else {
            assert(directories =~= Seq::empty());
        }
    }
    let rest = down.push(name);
    let steps = if up > 0 {
        ups(up)
    } else {
        seq!["."@]
    };
    assert(walked(directories, steps) == kept) by {
        if up > 0 {
            lemma_steps_up(directories, up);
        } else {
            assert(steps.drop_last() =~= Seq::empty());
            assert(walked(directories, steps.drop_last()) == directories);
            assert(kept =~= directories);
        }
    }
    assert(plain(steps + down, name)) by {
        assert forall|i: int| 0 <= i < (steps + down).len() implies lacks(#[trigger] (steps + down)[i], '/') by {
            if i >= steps.len() {
                assert((steps + down)[i] == down[i - steps.len()]);
            }
        }
    }
    lemma_path_splits(steps + down, name);
    assert((steps + down).push(name) =~= steps + rest);
    lemma_walks(directories, steps, rest);
    lemma_steps_down(kept, rest);
    assert(kept + rest =~= (kept + down).push(name));
    lemma_interposed(kept + down, name);
    let specifier = path_to(steps + down, name);
    assert((steps + down)[0] == steps[0]);
    assert(specifier[0] == '.');
}

proof fn lemma_filled(a: Seq<char>, b: Seq<char>, rest: Seq<char>)
    requires
        lacks(b, '*'),
    ensures
        filled(a + b, rest) == filled(a, rest) + b,
    decreases b.len(),
{
    if b.len() == 0 {
        assert(a + b =~= a);
        assert(filled(a, rest) + b =~= filled(a, rest));
    } else {
        let fewer = b.drop_last();
        assert(lacks(fewer, '*')) by {
            assert forall|i: int| 0 <= i < fewer.len() implies #[trigger] fewer[i] != '*' by {
                assert(fewer[i] == b[i]);
            }
        }
        lemma_filled(a, fewer, rest);
        assert((a + b).drop_last() =~= a + fewer);
        assert((a + b).last() == b.last());
        assert(b[b.len() - 1] != '*');
        assert((filled(a, rest) + fewer).push(b.last()) =~= filled(a, rest) + b);
    }
}

/// An alias with a star takes what stands in place of the star over to its
/// target; one without stands for its target alone.
pub proof fn lemma_alias_carries_the_rest(
    alias: AliasView,
    prefix: Seq<char>,
    suffix: Seq<char>,
    rest: Seq<char>,
    before: Seq<char>,
    after: Seq<char>,
    specifier: Seq<char>,
)
    requires
        alias.targets.len() > 0,
        lacks(prefix, '*'),
        lacks(before, '*'),
        lacks(after, '*'),
    ensures
        alias.pattern == prefix + seq!['*'] + suffix && alias.targets[0] == before + seq!['*'] + after ==> aliased(alias, prefix + rest + suffix)
            == Some(before + rest + after),
        alias.pattern == prefix + seq!['*'] + suffix && !(prefix.is_prefix_of(specifier) && suffix.is_suffix_of(specifier)) ==> aliased(alias, specifier)
            is None,
        alias.pattern == prefix && specifier == prefix ==> aliased(alias, specifier) == Some(alias.targets[0]),
        alias.pattern == prefix && specifier != prefix ==> aliased(alias, specifier) is None,
{
    let starry = prefix + seq!['*'] + suffix;
    assert(starry =~= prefix + (seq!['*'] + suffix));
    lemma_span_up_to(prefix, seq!['*'] + suffix, '*');
    assert(starry.take(prefix.len() as int) =~= prefix);
    assert(starry.skip(prefix.len() as int + 1) =~= suffix);
    let whole = prefix + rest + suffix;
    assert(whole.subrange(0, prefix.len() as int) =~= prefix);
    assert(whole.subrange(whole.len() - suffix.len(), whole.len() as int) =~= suffix);
    assert(whole.subrange(prefix.len() as int, whole.len() - suffix.len()) =~= rest);
    let target = before + seq!['*'] + after;
    lemma_filled(before + seq!['*'], after, rest);
    lemma_filled(Seq::empty(), before, rest);
    assert(Seq::<char>::empty() + before =~= before);
    assert(filled(before, rest) =~= before);
    assert((before + seq!['*']).drop_last() =~= before);
    assert(filled(before + seq!['*'], rest) == before + rest);
    lemma_span_up_to(prefix, Seq::empty(), '*');
    assert(prefix + Seq::<char>::empty() =~= prefix);
}

/// What an alias gives of a specifier, as a file.
pub open spec fn given_by(alias: AliasView, specifier: Seq<char>, paths: Set<Seq<char>>) -> Option<Seq<char>> {
    match aliased(alias, specifier) {
        Some(candidate) => file_named(candidate, paths),
        None => None,
    }
}

proof fn lemma_through(specifier: Seq<char>, aliases: Seq<AliasView>, from: int, paths: Set<Seq<char>>, k: int)
    requires
        0 <= from <= aliases.len(),
    ensures
        from <= k < aliases.len() && given_by(aliases[k], specifier, paths) is Some && (forall|j: int|
            from <= j < k ==> given_by(#[trigger] aliases[j], specifier, paths) is None) ==> through_aliases(specifier, aliases, from, paths) == given_by(
            aliases[k],
            specifier,
            paths,
        ),
        (forall|j: int| from <= j < aliases.len() ==> given_by(#[trigger] aliases[j], specifier, paths) is None) ==> through_aliases(
            specifier,
            aliases,
            from,
            paths,
        ) is None,
    decreases aliases.len() - from,
{
    if from < aliases.len() {
        lemma_through(specifier, aliases, from + 1, paths, k);
        assert(given_by(aliases[from], specifier, paths) is Some ==> k == from || k < from || !(forall|j: int|
            from <= j < k ==> given_by(#[trigger] aliases[j], specifier, paths) is None));
    }
}

/// An import that is not relative leads where the first alias leads that gives
/// a file, and nowhere where none does.
pub proof fn lemma_first_alias_decides(specifier: Seq<char>, from: Seq<char>, paths: Set<Seq<char>>, aliases: Seq<AliasView>, k: int)
    requires
        specifier.len() == 0 || specifier[0] != '.',
    ensures
        0 <= k < aliases.len() && given_by(aliases[k], specifier, paths) is Some && (forall|j: int|
            0 <= j < k ==> given_by(#[trigger] aliases[j], specifier, paths) is None) ==> resolved(specifier, from, paths, aliases) == given_by(
            aliases[k],
            specifier,
            paths,
        ),
        (forall|j: int| 0 <= j < aliases.len() ==> given_by(#[trigger] aliases[j], specifier, paths) is None) ==> resolved(
            specifier,
            from,
            paths,
            aliases,
        ) is None,
{
    lemma_through(specifier, aliases, 0, paths, k);
}

/// A tree entry is read as the object and the path it is written with.
pub proof fn lemma_tree_entry_is_read(mode: Seq<char>, kind: Seq<char>, object: Seq<char>, path: Seq<char>)
    requires
        is_word(mode),
        is_word(kind),
        is_word(object),
    ensures
        tree_entry(mode + seq![' '] + (kind + seq![' '] + object) + seq!['\t'] + path) == Some(EntryView { path, object_id: object }),
{
    let head = mode + seq![' '] + (kind + seq![' '] + object);
    let record = head + seq!['\t'] + path;
    lemma_words_part_at_spaces(object, Seq::empty());
    lemma_words_part_at_spaces(kind, object);
    lemma_words_part_at_spaces(mode, kind + seq![' '] + object);
    assert(lacks(head, '\t')) by {
        assert(is_space('\t'));
        assert forall|i: int| 0 <= i < head.len() implies #[trigger] head[i] != '\t' by {
            let a = mode.len() as int;
            let b = kind.len() as int;
            if i < a {
                assert(head[i] == mode[i]);
            } else if a < i < a + 1 + b {
                assert(head[i] == kind[i - a - 1]);
            } else if i > a + 1 + b {
                assert(head[i] == object[i - a - b - 2]);
            }
        }
    }
    assert(record =~= head + (seq!['\t'] + path));
    lemma_span_up_to(head, seq!['\t'] + path, '\t');
    assert(record.take(head.len() as int) =~= head);
    assert(record.skip(head.len() as int + 1) =~= path);
    let parts = words(head);
    assert(parts =~= seq![mode, kind, object]);
}

/// A re-export is followed to the module it comes from, four times at most, and
/// a definition is found where the exporting file declares it.
pub proof fn lemma_re_exports_are_followed(
    files: Map<Seq<char>, FileSymbolsView>,
    targets: Map<(Seq<char>, Seq<char>), Seq<char>>,
    path: Seq<char>,
    exported: Seq<char>,
    hops: u32,
)
    ensures
        !(files.contains_key(path) && files[path].exports.contains_key(exported)) ==> defined(files, targets, path, exported, hops) is None,
        files.contains_key(path) && files[path].exports.contains_key(exported) ==> {
            let symbol = files[path].exports[exported];
            &&& symbol.from is None && symbol.function is Some ==> defined(files, targets, path, exported, hops) == Some(
                FoundView { path, local: symbol.local, range: symbol.function->0, hops },
            )
            &&& symbol.from is None && symbol.function is None ==> defined(files, targets, path, exported, hops) is None
            &&& symbol.from matches Some(specifier) ==> {
                &&& hops < 4 && targets.contains_key((path, specifier)) ==> defined(files, targets, path, exported, hops) == defined(
                    files,
                    targets,
                    targets[(path, specifier)],
                    symbol.local,
                    (hops + 1) as u32,
                )
                &&& hops >= 4 || !targets.contains_key((path, specifier)) ==> defined(files, targets, path, exported, hops) is None
            }
        },
{
}

/// The configuration is the object of the first entry that is named
/// `tsconfig.json` at the root.
pub proof fn lemma_configuration_is_at_the_root(entries: Seq<EntryView>, from: int, k: int)
    requires
        0 <= from <= entries.len(),
    ensures
        from <= k < entries.len() && entries[k].path == "tsconfig.json"@ && (forall|j: int|
            from <= j < k ==> (#[trigger] entries[j]).path != "tsconfig.json"@) ==> config_from(entries, from) == Some(entries[k].object_id),
        (forall|j: int| from <= j < entries.len() ==> (#[trigger] entries[j]).path != "tsconfig.json"@) ==> config_from(entries, from) is None,
    decreases entries.len() - from,
{
    if from < entries.len() {
        lemma_configuration_is_at_the_root(entries, from + 1, k);
        assert(entries[from].path == entries[from].path);
    }
}

/// A resolved import makes the importer one of the importers of its target,
/// with the first line that imports it; an unresolved one is counted.
pub proof fn lemma_import_is_entered(index: IndexView, path: Seq<char>, specifier: Seq<char>, line: u32, target: Seq<char>, other: (Seq<char>, Seq<char>))
    ensures
        ({
            let found = index.with_specifier(path, specifier, line, Some(target));
            let missed = index.with_specifier(path, specifier, line, None);
            &&& found.importers_of(target).contains(path)
            &&& found.targets[(path, specifier)] == target
            &&& found.lines[(path, target)] <= line
            &&& index.lines.contains_key((path, target)) ==> found.lines[(path, target)] <= index.lines[(path, target)]
            &&& found.lines[(path, target)] == line || (index.lines.contains_key((path, target)) && found.lines[(path, target)] == index.lines[(
                path,
                target,
            )])
            &&& other != (path, target) ==> (found.edges.contains(other) <==> index.edges.contains(other))
            &&& found.unresolved == index.unresolved && found.misses == index.misses
            &&& missed.edges == index.edges && missed.targets == index.targets
            &&& index.unresolved < u32::MAX ==> missed.unresolved == index.unresolved + 1
            &&& missed.misses.contains_key(path)
            &&& index.misses.contains_key(path) && index.misses[path] < u32::MAX ==> missed.misses[path] == index.misses[path] + 1
            &&& !index.misses.contains_key(path) ==> missed.misses[path] == 1
            &&& path != other.0 ==> (missed.misses.contains_key(other.0) <==> index.misses.contains_key(other.0))
        }),
{
}

/// Longer patterns come first, and then the texts in order.
pub proof fn lemma_longer_patterns_first(a: AliasView, b: AliasView)
    ensures
        ({
            let m = encode_utf8(a.pattern).len();
            let n = encode_utf8(b.pattern).len();
            &&& alias_rank(a, b) == Rank::Before <==> m > n || (m == n && a.pattern != b.pattern && before(a.pattern, b.pattern))
            &&& alias_rank(a, b) == Rank::Same <==> m == n && a.pattern == b.pattern
        }),
{
}

proof fn lemma_strings(items: Seq<Json>, text: Seq<char>)
    ensures
        strings_in(items).contains(text) <==> items.contains(Json::Text(text)),
    decreases items.len(),
{
    if items.len() > 0 {
        let fewer = items.drop_last();
        lemma_strings(fewer, text);
        assert(items =~= fewer.push(items.last()));
        crate::collections::lemma_push_contains(fewer, items.last());
        if let Json::Text(own) = items.last() {
            crate::collections::lemma_push_contains(strings_in(fewer), own);
            assert(strings_in(items).contains(text) <==> strings_in(fewer).contains(text) || text == own);
        }
        assert(items.contains(Json::Text(text)) <==> fewer.contains(Json::Text(text)) || items.last() == Json::Text(text));
    } else {
        assert(!items.contains(Json::Text(text)));
    }
}

/// The aliases of a configuration are the entries of `paths` below
/// `compilerOptions` whose lists hold some text, each with those texts.
pub proof fn lemma_aliases_are_configured(
    root: Map<Seq<char>, Json>,
    options: Map<Seq<char>, Json>,
    paths: Map<Seq<char>, Json>,
    items: Seq<Json>,
    alias: AliasView,
    text: Seq<char>,
)
    requires
        root.contains_key("compilerOptions"@),
        root["compilerOptions"@] == Json::Object(options),
        options.contains_key("paths"@),
        options["paths"@] == Json::Object(paths),
        paths.contains_key(alias.pattern),
        paths[alias.pattern] == Json::List(items),
        is_configured(configured_paths(Json::Object(root)), alias),
    ensures
        items.contains(Json::Text(text)) ==> alias.targets.contains(normalized(text)),
        alias.targets.len() == strings_in(items).len(),
        alias.targets.len() > 0,
{
    lemma_strings(items, text);
    if items.contains(Json::Text(text)) {
        let strings = strings_in(items);
        let k = choose|k: int| 0 <= k < strings.len() && strings[k] == text;
        assert(entry_targets(Json::List(items))[k] == normalized(text));
    }
}

/// In a configuration a line comment and a block comment are left out, and
/// other characters are kept.
pub proof fn lemma_configuration_comments(body: Seq<char>, rest: Seq<char>, c: char)
    requires
        lacks(body, '\n'),
    ensures
        uncommented(seq!['/', '/'] + body + seq!['\n'] + rest) == seq!['\n'] + uncommented(rest),
        c != '"' && c != '/' ==> uncommented(seq![c] + rest) == seq![c] + uncommented(rest),
        rest.len() > 0 && rest[0] != '/' && rest[0] != '*' ==> uncommented(seq!['/'] + rest) == seq!['/'] + uncommented(rest),
{
    let line = seq!['/', '/'] + body + seq!['\n'] + rest;
    let head = seq!['/', '/'] + body;
    assert(line =~= head + (seq!['\n'] + rest));
    assert(lacks(head, '\n')) by {
        assert forall|i: int| 0 <= i < head.len() implies #[trigger] head[i] != '\n' by {
            if i >= 2 {
                assert(head[i] == body[i - 2]);
            }
        }
    }
    lemma_span_up_to(head, seq!['\n'] + rest, '\n');
    let after = seq!['\n'] + rest;
    assert(line.skip(head.len() as int) =~= after);
    assert(after.skip(1) =~= rest);
    assert(uncommented(after) == seq!['\n'] + uncommented(rest));
    assert(line[0] == '/' && line[1] == '/');
    let one = seq![c] + rest;
    assert(one[0] == c);
    assert(one.skip(1) =~= rest);
    let slash = seq!['/'] + rest;
    assert(slash[0] == '/');
    assert(slash.skip(1) =~= rest);
    if rest.len() > 0 {
        assert(slash[1] == rest[0]);
    }
}

/// A comma before a closing bracket is left out, whatever white space stands
/// between, and a comma before anything else is kept.
pub proof fn lemma_trailing_comma_is_dropped(space: Seq<char>, rest: Seq<char>, c: char)
    requires
        forall|i: int| 0 <= i < space.len() ==> is_space(#[trigger] space[i]),
    ensures
        c == '}' || c == ']' ==> untrailed(seq![','] + space + seq![c] + rest, false) == space + seq![c] + untrailed(rest, false),
        !is_space(c) && c != ',' && c != '}' && c != ']' && c != '"' ==> untrailed(seq![','] + space + seq![c] + rest, false) == space + seq![',', c]
            + untrailed(rest, false),
{
    let all = seq![','] + space + seq![c] + rest;
    assert(all[0] == ',');
    assert(all.skip(1) =~= space + (seq![c] + rest));
    lemma_spaces_pass(space, seq![c] + rest);
    let tail = seq![c] + rest;
    assert(tail[0] == c);
    assert(tail.skip(1) =~= rest);
    assert(untrailed(all, false) =~= untrailed(all.skip(1), true));
    if c == '}' || c == ']' {
        assert(untrailed(tail, true) == seq![c] + untrailed(rest, false));
        assert(space + (seq![c] + untrailed(rest, false)) =~= space + seq![c] + untrailed(rest, false));
    } else if !is_space(c) && c != ',' && c != '"' {
        assert(untrailed(tail, true) == seq![','] + seq![c] + untrailed(rest, false));
        assert(space + (seq![','] + seq![c] + untrailed(rest, false)) =~= space + seq![',', c] + untrailed(rest, false));
    }
}

proof fn lemma_spaces_pass(space: Seq<char>, tail: Seq<char>)
    requires
        forall|i: int| 0 <= i < space.len() ==> is_space(#[trigger] space[i]),
    ensures
        untrailed(space + tail, true) == space + untrailed(tail, true),
    decreases space.len(),
{
    if space.len() == 0 {
        assert(space + tail =~= tail);
        assert(space + untrailed(tail, true) =~= untrailed(tail, true));
    } else {
        let s = space + tail;
        let fewer = space.drop_first();
        assert forall|i: int| 0 <= i < fewer.len() implies is_space(#[trigger] fewer[i]) by {
            assert(fewer[i] == space[i + 1]);
        }
        assert(s[0] == space[0]);
        assert(is_space(space[0]));
        assert(s.skip(1) =~= fewer + tail);
        lemma_spaces_pass(fewer, tail);
        assert(seq![space[0]] + (fewer + untrailed(tail, true)) =~= space + untrailed(tail, true));
    }
}

} // verus!

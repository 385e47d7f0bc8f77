//! What file a module specifier names in one revision.

use vstd::prelude::*;

use crate::collections::TextSet;
use crate::text::{
    chars_of, find_first, find_last, interposed, join3, join_all, last_of, other_than, same_text, span, split_on, split_text, strip, text_of, text_option,
    texts, trim_end_by,
};

verus! {

/// A `compilerOptions.paths` entry: a pattern, and what it maps to.
#[derive(Debug, Clone, PartialEq, Eq)]
pub struct PathAlias {
    pub pattern: String,
    pub targets: Vec<String>,
}

/// A path alias by its texts.
#[verifier::ext_equal]
pub struct AliasView {
    pub pattern: Seq<char>,
    pub targets: Seq<Seq<char>>,
}

impl View for PathAlias {
    type V = AliasView;

    open spec fn view(&self) -> AliasView {
        AliasView { pattern: self.pattern@, targets: texts(self.targets@) }
    }
}

/// The aliases of a configuration by their texts.
pub open spec fn alias_views(aliases: Seq<PathAlias>) -> Seq<AliasView> {
    Seq::new(aliases.len(), |i: int| aliases[i]@)
}

/// Segments with one piece of a relative path applied: `.` and nothing stay,
/// `..` leaves the last segment, and a name enters it.
pub open spec fn stepped(segments: Seq<Seq<char>>, piece: Seq<char>) -> Seq<Seq<char>> {
    if piece == "."@ || piece.len() == 0 {
        segments
    } else if piece == ".."@ {
        if segments.len() > 0 {
            segments.drop_last()
        } else {
            segments
        }
    } else {
        segments.push(piece)
    }
}

/// Segments with every piece of a relative path applied in turn.
pub open spec fn walked(segments: Seq<Seq<char>>, pieces: Seq<Seq<char>>) -> Seq<Seq<char>>
    decreases pieces.len(),
{
    if pieces.len() == 0 {
        segments
    } else {
        stepped(walked(segments, pieces.drop_last()), pieces.last())
    }
}

/// The segments of a directory; the top has none.
pub open spec fn directory_segments(base: Seq<char>) -> Seq<Seq<char>> {
    if base.len() == 0 {
        Seq::empty()
    } else {
        split_on(base, '/')
    }
}

/// A relative specifier followed from a directory.
pub open spec fn joined(base: Seq<char>, specifier: Seq<char>) -> Seq<char> {
    interposed(walked(directory_segments(base), split_on(specifier, '/')), "/"@)
}

/// Join a directory and a relative specifier, resolving `.` and `..`.
#[must_use]
pub fn join(base: &str, specifier: &str) -> (r: String)
    ensures
        r@ == joined(base@, specifier@),
{
    let mut segments: Vec<String> = if base.is_empty() {
        Vec::new()
    } else {
        split_text(base, '/')
    };
    let pieces = split_text(specifier, '/');
    let ghost start = directory_segments(base@);
    let ghost names = split_on(specifier@, '/');
    assert(texts(segments@) =~= start);
    let mut i: usize = 0;
    assert(names.take(0) =~= Seq::<Seq<char>>::empty());
    while i < pieces.len()
        invariant
            i <= pieces.len(),
            names == texts(pieces@),
            texts(segments@) == walked(start, names.take(i as int)),
        decreases pieces.len() - i,
    {
        let piece = pieces[i].as_str();
        let ghost so_far = texts(segments@);
        proof {
            assert(names.take(i + 1).drop_last() =~= names.take(i as int));
            assert(names.take(i + 1).last() == piece@);
            reveal_strlit("..");
        }
        if same_text(piece, ".") || piece.is_empty() {
        } else if same_text(piece, "..") {
            let _ = segments.pop();
            assert(texts(segments@) =~= stepped(so_far, piece@));
        } else {
            segments.push(piece.to_owned());
            assert(texts(segments@) =~= so_far.push(piece@));
        }
        i = i + 1;
    }
    assert(names.take(i as int) =~= names);
    join_all(&segments, "/")
}

/// A path without any leading `./`.
pub open spec fn without_dots(path: Seq<char>) -> Seq<char>
    decreases path.len(),
{
    if path.len() >= 2 && path[0] == '.' && path[1] == '/' {
        without_dots(path.skip(2))
    } else {
        path
    }
}

/// The condition of being a slash.
pub open spec fn slashes() -> spec_fn(char) -> bool {
    |c: char| c == '/'
}

/// A path without any leading `./` and any trailing slash.
pub open spec fn normalized(path: Seq<char>) -> Seq<char> {
    trim_end_by(without_dots(path), slashes())
}

/// Strip a leading `./` and any trailing slash from a configured target.
#[must_use]
pub fn normalize(path: &str) -> (r: String)
    ensures
        r@ == normalized(path@),
{
    let chars = chars_of(path);
    let mut from: usize = 0;
    assert(path@.skip(0) =~= path@);
    while chars.len() - from >= 2 && chars[from] == '.' && chars[from + 1] == '/'
        invariant
            from <= chars.len(),
            chars@ == path@,
            without_dots(path@.skip(from as int)) == without_dots(path@),
        decreases chars.len() - from,
    {
        assert(path@.skip(from as int).skip(2) =~= path@.skip(from + 2));
        from = from + 2;
    }
    let ghost rest = path@.skip(from as int);
    assert(without_dots(path@) == rest);
    let mut to: usize = chars.len();
    assert(path@.subrange(from as int, to as int) =~= rest);
    while to > from && chars[to - 1] == '/'
        invariant
            from <= to <= chars.len(),
            chars@ == path@,
            trim_end_by(path@.subrange(from as int, to as int), slashes()) == trim_end_by(rest, slashes()),
        decreases to,
    {
        assert(path@.subrange(from as int, to as int).drop_last() =~= path@.subrange(from as int, to - 1));
        to = to - 1;
    }
    text_of(&chars, from, to)
}

/// A text with another in place of every star.
pub open spec fn filled(template: Seq<char>, rest: Seq<char>) -> Seq<char>
    decreases template.len(),
{
    if template.len() == 0 {
        Seq::empty()
    } else if template.last() == '*' {
        filled(template.drop_last(), rest) + rest
    } else {
        filled(template.drop_last(), rest).push(template.last())
    }
}

fn fill(template: &str, rest: &str) -> (r: String)
    ensures
        r@ == filled(template@, rest@),
{
    let chars = chars_of(template);
    let mut out = String::new();
    let mut i: usize = 0;
    assert(template@.take(0) =~= Seq::<char>::empty());
    assert(out@ =~= filled(template@.take(0), rest@));
    while i < chars.len()
        invariant
            i <= chars.len(),
            chars@ == template@,
            out@ == filled(template@.take(i as int), rest@),
        decreases chars.len() - i,
    {
        assert(template@.take(i + 1).drop_last() =~= template@.take(i as int));
        if chars[i] == '*' {
            out.append(rest);
        } else {
            out.push(chars[i]);
        }
        i = i + 1;
    }
    assert(template@.take(i as int) =~= template@);
    out
}

/// What a pattern's star stands for in a specifier that matches it.
pub open spec fn starred(prefix: Seq<char>, suffix: Seq<char>, specifier: Seq<char>) -> Option<Seq<char>> {
    if specifier.len() >= prefix.len() + suffix.len() && prefix.is_prefix_of(specifier) && suffix.is_suffix_of(specifier) {
        Some(specifier.subrange(prefix.len() as int, specifier.len() - suffix.len()))
    } else {
        None
    }
}

/// What one alias makes of a specifier: its first target, with what the star
/// of the pattern stands for in place of every star.
pub open spec fn aliased(alias: AliasView, specifier: Seq<char>) -> Option<Seq<char>> {
    let at = span(alias.pattern, other_than('*')) as int;
    if alias.targets.len() == 0 {
        None
    } else if at == alias.pattern.len() {
        if alias.pattern == specifier {
            Some(alias.targets[0])
        } else {
            None
        }
    } else {
        match starred(alias.pattern.take(at), alias.pattern.skip(at + 1), specifier) {
            Some(rest) => Some(filled(alias.targets[0], rest)),
            None => None,
        }
    }
}

/// Substitute a specifier into one `paths` mapping, if the pattern matches.
#[must_use]
pub fn apply_alias(alias: &PathAlias, specifier: &str) -> (r: Option<String>)
    ensures
        text_option(r) == aliased(alias@, specifier@),
{
    if alias.targets.len() == 0 {
        return None;
    }
    let target = alias.targets[0].as_str();
    assert(alias@.targets[0] == target@);
    let pattern = chars_of(alias.pattern.as_str());
    let at = find_first(&pattern, '*');
    if at == pattern.len() {
        return if same_text(alias.pattern.as_str(), specifier) {
            Some(target.to_owned())
        } else {
            None
        };
    }
    let prefix = text_of(&pattern, 0, at);
    let suffix = text_of(&pattern, at + 1, pattern.len());
    proof {
        assert(prefix@ =~= alias@.pattern.take(at as int));
        assert(suffix@ =~= alias@.pattern.skip(at + 1));
    }
    let Some(behind) = strip(specifier, prefix.as_str()) else {
        return None;
    };
    let ghost whole = specifier@;
    let tail = chars_of(behind.as_str());
    let ends = crate::text::ends_with(behind.as_str(), suffix.as_str());
    if !ends {
        proof {
            if whole.len() >= prefix@.len() + suffix@.len() && suffix@.is_suffix_of(whole) {
                assert(suffix@ =~= behind@.subrange(behind@.len() - suffix@.len(), behind@.len() as int));
            }
        }
        return None;
    }
    let width: usize = chars_of(suffix.as_str()).len();
    let rest = text_of(&tail, 0, tail.len() - width);
    proof {
        assert(rest@ =~= whole.subrange(prefix@.len() as int, whole.len() - suffix@.len()));
        assert(suffix@ =~= whole.subrange(whole.len() - suffix@.len(), whole.len() as int));
    }
    Some(fill(target, rest.as_str()))
}

/// Extensions tried, in order, when a specifier names no file extension.
pub open spec fn candidate_extensions() -> Seq<Seq<char>> {
    seq!["ts"@, "tsx"@, "mts"@, "cts"@, "d.ts"@, "js"@, "jsx"@]
}

fn extensions() -> (r: Vec<&'static str>)
    ensures
        r@.len() == candidate_extensions().len(),
        forall|i: int| 0 <= i < r@.len() ==> (#[trigger] r@[i])@ == candidate_extensions()[i],
{
    vec!["ts", "tsx", "mts", "cts", "d.ts", "js", "jsx"]
}

/// The first extension from a place on that makes a path out of a stem.
pub open spec fn extended(stem: Seq<char>, from: int, paths: Set<Seq<char>>) -> Option<Seq<char>>
    decreases candidate_extensions().len() - from,
{
    if from < 0 || from >= candidate_extensions().len() {
        None
    } else {
        let path = stem + "."@ + candidate_extensions()[from];
        if paths.contains(path) {
            Some(path)
        } else {
            extended(stem, from + 1, paths)
        }
    }
}

fn extend(stem: &str, paths: &TextSet) -> (r: Option<String>)
    ensures
        text_option(r) == extended(stem@, 0, paths@),
{
    let known = extensions();
    let mut i: usize = 0;
    while i < known.len()
        invariant
            i <= known.len(),
            known@.len() == candidate_extensions().len(),
            forall|k: int| 0 <= k < known@.len() ==> (#[trigger] known@[k])@ == candidate_extensions()[k],
            extended(stem@, i as int, paths@) == extended(stem@, 0, paths@),
        decreases known.len() - i,
    {
        let path = join3(stem, ".", known[i]);
        if paths.contains(path.as_str()) {
            return Some(path);
        }
        i = i + 1;
    }
    None
}

/// The file that a path-like specifier names: the path itself where it has an
/// extension, else the path with the first extension that makes a file, else
/// the index of the directory that it names.
pub open spec fn file_named(candidate: Seq<char>, paths: Set<Seq<char>>) -> Option<Seq<char>> {
    let path = normalized(candidate);
    if paths.contains(path) && path.contains('.') {
        Some(path)
    } else if extended(path, 0, paths) is Some {
        extended(path, 0, paths)
    } else {
        extended(path + "/"@ + "index"@, 0, paths)
    }
}

/// Find the file a path-like specifier names, trying the usual extensions.
#[must_use]
pub fn resolve_file(candidate: &str, paths: &TextSet) -> (r: Option<String>)
    ensures
        text_option(r) == file_named(candidate@, paths@),
{
    let path = normalize(candidate);
    let chars = chars_of(path.as_str());
    let dot = find_first(&chars, '.');
    proof {
        crate::text::lemma_span_holds(path@, other_than('.'));
        if dot < chars.len() {
            assert(path@[dot as int] == '.');
        }
        assert(path@.contains('.') <==> dot < chars.len());
    }
    if paths.contains(path.as_str()) && dot < chars.len() {
        return Some(path);
    }
    let direct = extend(path.as_str(), paths);
    if direct.is_some() {
        return direct;
    }
    let inside = join3(path.as_str(), "/", "index");
    extend(inside.as_str(), paths)
}

/// The directory that a path lies in.
pub open spec fn parent_of(path: Seq<char>) -> Seq<char> {
    if last_of(path, '/') < path.len() {
        path.take(last_of(path, '/') as int)
    } else {
        Seq::empty()
    }
}

fn parent(path: &str) -> (r: String)
    ensures
        r@ == parent_of(path@),
{
    let chars = chars_of(path);
    let at = find_last(&chars, '/');
    if at < chars.len() {
        assert(path@.take(at as int) =~= path@.subrange(0, at as int));
        text_of(&chars, 0, at)
    } else {
        String::new()
    }
}

/// The file that the first alias from a place on to name one names.
pub open spec fn through_aliases(specifier: Seq<char>, aliases: Seq<AliasView>, from: int, paths: Set<Seq<char>>) -> Option<Seq<char>>
    decreases aliases.len() - from,
{
    if from < 0 || from >= aliases.len() {
        None
    } else {
        let found = match aliased(aliases[from], specifier) {
            Some(candidate) => file_named(candidate, paths),
            None => None,
        };
        if found is Some {
            found
        } else {
            through_aliases(specifier, aliases, from + 1, paths)
        }
    }
}

/// The path that a specifier names in a revision: one that begins with a dot
/// is followed from the importing file's directory, any other goes through
/// the aliases.
pub open spec fn resolved(specifier: Seq<char>, from: Seq<char>, paths: Set<Seq<char>>, aliases: Seq<AliasView>) -> Option<Seq<char>> {
    if specifier.len() > 0 && specifier[0] == '.' {
        file_named(joined(parent_of(from), specifier), paths)
    } else {
        through_aliases(specifier, aliases, 0, paths)
    }
}

/// Resolve one module specifier to a path in this revision.
#[must_use]
pub fn resolve(specifier: &str, from: &str, paths: &TextSet, aliases: &Vec<PathAlias>) -> (r: Option<String>)
    ensures
        text_option(r) == resolved(specifier@, from@, paths@, alias_views(aliases@)),
        r is Some ==> paths@.contains(r->0@),
{
    proof {
        lemma_resolved_exists(specifier@, from@, paths@, alias_views(aliases@));
    }
    let head = chars_of(specifier);
    if head.len() > 0 && head[0] == '.' {
        let base = parent(from);
        return resolve_file(join(base.as_str(), specifier).as_str(), paths);
    }
    let ghost views = alias_views(aliases@);
    let mut i: usize = 0;
    while i < aliases.len()
        invariant
            i <= aliases.len(),
            views == alias_views(aliases@),
            !(specifier@.len() > 0 && specifier@[0] == '.'),
            through_aliases(specifier@, views, i as int, paths@) == through_aliases(specifier@, views, 0, paths@),
            resolved(specifier@, from@, paths@, views) is Some ==> paths@.contains(resolved(specifier@, from@, paths@, views)->0),
        decreases aliases.len() - i,
    {
        let alias = &aliases[i];
        assert(views[i as int] == alias@);
        let candidate = apply_alias(alias, specifier);
        if candidate.is_some() {
            let path = candidate.unwrap();
            let found = resolve_file(path.as_str(), paths);
            if found.is_some() {
                return found;
            }
        }
        i = i + 1;
    }
    None
}

proof fn lemma_extended_exists(stem: Seq<char>, from: int, paths: Set<Seq<char>>)
    ensures
        extended(stem, from, paths) is Some ==> paths.contains(extended(stem, from, paths)->0),
    decreases candidate_extensions().len() - from,
{
    if 0 <= from < candidate_extensions().len() {
        lemma_extended_exists(stem, from + 1, paths);
    }
}

proof fn lemma_aliases_exist(specifier: Seq<char>, aliases: Seq<AliasView>, from: int, paths: Set<Seq<char>>)
    ensures
        through_aliases(specifier, aliases, from, paths) is Some ==> paths.contains(through_aliases(specifier, aliases, from, paths)->0),
    decreases aliases.len() - from,
{
    if 0 <= from < aliases.len() {
        if let Some(candidate) = aliased(aliases[from], specifier) {
            lemma_file_exists(candidate, paths);
        }
        lemma_aliases_exist(specifier, aliases, from + 1, paths);
    }
}

proof fn lemma_file_exists(candidate: Seq<char>, paths: Set<Seq<char>>)
    ensures
        file_named(candidate, paths) is Some ==> paths.contains(file_named(candidate, paths)->0),
{
    let path = normalized(candidate);
    lemma_extended_exists(path, 0, paths);
    lemma_extended_exists(path + "/"@ + "index"@, 0, paths);
}

/// A specifier resolves only to a file that the revision has.
pub proof fn lemma_resolved_exists(specifier: Seq<char>, from: Seq<char>, paths: Set<Seq<char>>, aliases: Seq<AliasView>)
    ensures
        resolved(specifier, from, paths, aliases) is Some ==> paths.contains(resolved(specifier, from, paths, aliases)->0),
{
    lemma_file_exists(joined(parent_of(from), specifier), paths);
    lemma_aliases_exist(specifier, aliases, 0, paths);
}

/// An installed package, which no alias matches, resolves to nothing.
pub proof fn lemma_package_is_external(specifier: Seq<char>, from: Seq<char>, paths: Set<Seq<char>>, aliases: Seq<AliasView>)
    requires
        specifier.len() > 0 ==> specifier[0] != '.',
        forall|i: int| 0 <= i < aliases.len() ==> aliased(#[trigger] aliases[i], specifier) is None,
    ensures
        resolved(specifier, from, paths, aliases) is None,
{
    lemma_unmatched(specifier, aliases, 0, paths);
}

proof fn lemma_unmatched(specifier: Seq<char>, aliases: Seq<AliasView>, from: int, paths: Set<Seq<char>>)
    requires
        forall|i: int| 0 <= i < aliases.len() ==> aliased(#[trigger] aliases[i], specifier) is None,
    ensures
        through_aliases(specifier, aliases, from, paths) is None,
    decreases aliases.len() - from,
{
    if 0 <= from < aliases.len() {
        lemma_unmatched(specifier, aliases, from + 1, paths);
    }
}

} // verus!

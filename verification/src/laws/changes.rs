//! What happened to the functions of a file.

use vstd::prelude::*;

use crate::analysis::{
    added_inside, all_keys, ambiguous, change_key, change_of, change_start, changes_of, churn_of, first_with, function_change_order, hunk_touches,
    is_ambiguous, key_count, key_of, lemma_every_function_is_accounted_for, lines_inside, mapped, mapping_diagnostic_order, mapping_diagnostics, passed_on,
    removed_inside, side_of, touches, touching, unavailable, FunctionChangeStatus, FunctionChangeView, FunctionMappingDiagnosticCode, KeyView,
    MappingDiagnosticView, MatchConfidence, SideView,
};
use crate::collections::{arranged, ascending, lemma_arranged_keeps};
use crate::languages::{source_outcome, DefinitionView, DiagnosticSeverity, LanguageDiagnosticCode, LanguageDiagnosticView, SourceRange};
use crate::laws::counting::{how_many, lemma_how_many_same, sum};
use crate::laws::words::lemma_finite_is_listed;
use crate::order::{by_rank, lemma_same_multiset};
use crate::{BlobView, DiffHunk, ErrorView, FileChangeView, FileStatus};

verus! {

/// The numbers of the lines that a change of `count` lines at `start` and a
/// range have in common.
pub open spec fn shared_lines(range: SourceRange, start: u32, count: u32) -> Set<int> {
    Set::new(|line: int| start <= line < start + count && range.start_line <= line <= range.end_line)
}

/// The lines counted inside a range are those that lie both in the change and in
/// the range: never more than the change has, nor more than the range has.
pub proof fn lemma_lines_inside_are_shared(range: SourceRange, start: u32, count: u32)
    ensures
        shared_lines(range, start, count).finite(),
        lines_inside(range, start, count) == shared_lines(range, start, count).len(),
        lines_inside(range, start, count) <= count,
        range.start_line <= range.end_line ==> lines_inside(range, start, count) <= range.end_line - range.start_line + 1,
{
    let lo = if start > range.start_line {
        start as int
    } else {
        range.start_line as int
    };
    let hi = if start + count <= range.end_line + 1 {
        start + count
    } else {
        range.end_line + 1
    };
    if lo <= hi {
        vstd::set_lib::lemma_int_range(lo, hi);
        assert(shared_lines(range, start, count) =~= vstd::set_lib::set_int_range(lo, hi));
    } else {
        assert(shared_lines(range, start, count) =~= Set::<int>::empty());
    }
}

/// A change touches a range where the two have a line in common; a change of no
/// lines, which stands behind a line, where that line or the next is one of the
/// range.
pub proof fn lemma_touching_is_sharing(range: SourceRange, start: u32, count: u32)
    requires
        range.start_line <= range.end_line,
    ensures
        count > 0 ==> (touches(range, start, count) <==> exists|line: int| #[trigger] shared_lines(range, start, count).contains(line)),
        count == 0 ==> (touches(range, start, count) <==> (range.start_line <= start <= range.end_line) || (range.start_line <= start + 1
            <= range.end_line)),
{
    if count > 0 {
        if touches(range, start, count) {
            let line = if start >= range.start_line {
                start as int
            } else {
                range.start_line as int
            };
            assert(shared_lines(range, start, count).contains(line));
        }
    }
}

proof fn lemma_sums(base: SourceRange, target: SourceRange, hunks: Seq<DiffHunk>, n: int)
    requires
        0 <= n <= hunks.len(),
    ensures
        removed_inside(base, hunks.take(n)) == sum(n, |i: int| shared_lines(base, hunks[i].base_start, hunks[i].base_count).len()),
        added_inside(target, hunks.take(n)) == sum(n, |i: int| shared_lines(target, hunks[i].target_start, hunks[i].target_count).len()),
    decreases n,
{
    if n > 0 {
        lemma_sums(base, target, hunks, n - 1);
        assert(hunks.take(n).drop_last() =~= hunks.take(n - 1));
        assert(hunks.take(n).last() == hunks[n - 1]);
        lemma_lines_inside_are_shared(base, hunks[n - 1].base_start, hunks[n - 1].base_count);
        lemma_lines_inside_are_shared(target, hunks[n - 1].target_start, hunks[n - 1].target_count);
    }
}

proof fn lemma_touching(base: Option<SourceRange>, target: Option<SourceRange>, hunks: Seq<DiffHunk>, n: int)
    requires
        0 <= n <= hunks.len(),
    ensures
        touching(base, target, hunks.take(n)) == how_many(n, |i: int| hunk_touches(base, target, hunks[i])),
    decreases n,
{
    if n > 0 {
        lemma_touching(base, target, hunks, n - 1);
        assert(hunks.take(n).drop_last() =~= hunks.take(n - 1));
        assert(hunks.take(n).last() == hunks[n - 1]);
    }
}

/// A count that is not over the largest 32-bit number, or that number.
pub open spec fn at_most_32_bits(counted: nat, reported: u32) -> bool {
    (counted <= u32::MAX && reported == counted) || (counted > u32::MAX && reported == u32::MAX)
}

/// The lines removed from a function are those that the base side of the hunks
/// shares with it before the change, and the lines added to it those that the
/// target side shares with it after the change. The hunks that changed it are
/// those that touch it on either side.
pub proof fn lemma_churn_counts_shared_lines(base: Option<SourceRange>, target: Option<SourceRange>, hunks: Seq<DiffHunk>)
    ensures
        match base {
            Some(range) => at_most_32_bits(
                sum(hunks.len() as int, |i: int| shared_lines(range, hunks[i].base_start, hunks[i].base_count).len()),
                churn_of(base, target, hunks).lines_removed,
            ),
            None => churn_of(base, target, hunks).lines_removed == 0,
        },
        match target {
            Some(range) => at_most_32_bits(
                sum(hunks.len() as int, |i: int| shared_lines(range, hunks[i].target_start, hunks[i].target_count).len()),
                churn_of(base, target, hunks).lines_added,
            ),
            None => churn_of(base, target, hunks).lines_added == 0,
        },
        at_most_32_bits(
            how_many(
                hunks.len() as int,
                |i: int|
                    (base matches Some(range) && touches(range, hunks[i].base_start, hunks[i].base_count)) || (target matches Some(range) && touches(
                        range,
                        hunks[i].target_start,
                        hunks[i].target_count,
                    )),
            ),
            churn_of(base, target, hunks).changed_hunks,
        ),
{
    let n = hunks.len() as int;
    assert(hunks.take(n) =~= hunks);
    let any = SourceRange { start_line: 1, start_column: 0, end_line: 1, end_column: 0 };
    let b = match base {
        Some(range) => range,
        None => any,
    };
    let t = match target {
        Some(range) => range,
        None => any,
    };
    lemma_sums(b, t, hunks, n);
    lemma_touching(base, target, hunks, n);
    let counted = |i: int| hunk_touches(base, target, hunks[i]);
    let stated = |i: int|
        (base matches Some(range) && touches(range, hunks[i].base_start, hunks[i].base_count)) || (target matches Some(range) && touches(
            range,
            hunks[i].target_start,
            hunks[i].target_count,
        ));
    lemma_how_many_same(n, counted, stated);
}

/// Whether a function of some definitions has the identity of a change.
pub open spec fn is_of(change: FunctionChangeView, f: DefinitionView) -> bool {
    f.language == change.language && f.kind == change.kind && f.qualified_name == change.qualified_name
}

/// Whether what a change says of one side is what the only definition of its
/// identity there says, and nothing where there is none.
pub open spec fn tells(
    change: FunctionChangeView,
    side: Seq<DefinitionView>,
    range: Option<SourceRange>,
    metrics: Option<crate::metrics::FunctionMetrics>,
    calls: Seq<crate::languages::CallView>,
) -> bool {
    match range {
        Some(_) => exists|i: int|
            0 <= i < side.len() && is_of(change, #[trigger] side[i]) && range == Some(side[i].range) && metrics == Some(side[i].metrics) && calls
                == side[i].calls,
        None => metrics is None && calls.len() == 0 && forall|i: int| 0 <= i < side.len() ==> !is_of(change, #[trigger] side[i]),
    }
}

proof fn lemma_first(functions: Seq<DefinitionView>, key: KeyView)
    ensures
        match first_with(functions, key) {
            Some(f) => functions.contains(f) && key_of(f) == key,
            None => forall|i: int| 0 <= i < functions.len() ==> key_of(#[trigger] functions[i]) != key,
        },
    decreases functions.len(),
{
    if functions.len() > 0 {
        let shorter = functions.drop_last();
        lemma_first(shorter, key);
        match first_with(shorter, key) {
            Some(f) => {
                let i = choose|i: int| 0 <= i < shorter.len() && shorter[i] == f;
                assert(functions[i] == f);
            },
            None => {
                assert forall|i: int| 0 <= i < functions.len() - 1 implies key_of(#[trigger] functions[i]) != key by {
                    assert(shorter[i] == functions[i]);
                }
                assert(functions[functions.len() - 1] == functions.last());
            },
        }
    }
}

proof fn lemma_change_is_of_key(
    keys: Seq<KeyView>,
    base: Seq<DefinitionView>,
    target: Seq<DefinitionView>,
    status: FileStatus,
    hunks: Seq<DiffHunk>,
    change: FunctionChangeView,
)
    requires
        changes_of(keys, base, target, status, hunks).contains(change),
    ensures
        change_of(change_key(change), first_with(base, change_key(change)), first_with(target, change_key(change)), status, hunks) == Some(change),
    decreases keys.len(),
{
    if keys.len() > 0 {
        let earlier = changes_of(keys.drop_last(), base, target, status, hunks);
        let all = changes_of(keys, base, target, status, hunks);
        let k = choose|k: int| 0 <= k < all.len() && all[k] == change;
        if k < earlier.len() {
            assert(earlier[k] == change);
            lemma_change_is_of_key(keys.drop_last(), base, target, status, hunks, change);
        } else {
            let key = keys.last();
            assert(change_key(change) == key);
        }
    }
}

/// What a change says of a function is what its two definitions say, and its
/// status follows from which of them there are. A function that both revisions
/// have was modified where its metrics differ or a hunk touches it on a side,
/// and is unchanged else.
pub proof fn lemma_change_tells_both_sides(file: FileChangeView, base: SideView, target: SideView, change: FunctionChangeView)
    requires
        mapped(file, base, target).functions.contains(change),
    ensures
        tells(change, base.functions, change.base_range, change.metrics_before, change.calls_before),
        tells(change, target.functions, change.target_range, change.metrics_after, change.calls_after),
        change.base_range is Some || change.target_range is Some,
        change.match_confidence == MatchConfidence::Exact,
        change.churn == churn_of(change.base_range, change.target_range, file.hunks),
        change.target_range is None ==> change.status == FunctionChangeStatus::Removed,
        change.base_range is None ==> change.status == FunctionChangeStatus::Added,
        change.base_range is Some && change.target_range is Some && file.status == FileStatus::Added ==> change.status == FunctionChangeStatus::Added,
        change.base_range is Some && change.target_range is Some && file.status == FileStatus::Deleted ==> change.status
            == FunctionChangeStatus::Removed,
        change.base_range is Some && change.target_range is Some && file.status != FileStatus::Added && file.status != FileStatus::Deleted ==> {
            let touched = change.metrics_before != change.metrics_after || exists|i: int|
                0 <= i < file.hunks.len() && ({
                    ||| touches(change.base_range->0, (#[trigger] file.hunks[i]).base_start, file.hunks[i].base_count)
                    ||| touches(change.target_range->0, file.hunks[i].target_start, file.hunks[i].target_count)
                });
            change.status == if touched {
                FunctionChangeStatus::Modified
            } else {
                FunctionChangeStatus::Unchanged
            }
        },
{
    let keys = all_keys(base.functions, target.functions);
    let changes = changes_of(keys, base.functions, target.functions, file.status, file.hunks);
    let out = arranged(changes, by_rank(function_change_order()));
    lemma_arranged_keeps(changes, by_rank(function_change_order()));
    lemma_same_multiset(out, changes);
    assert(out.to_set().contains(change));
    assert(changes.to_set().contains(change));
    assert(changes.contains(change));
    lemma_change_is_of_key(keys, base.functions, target.functions, file.status, file.hunks, change);
    let key = change_key(change);
    lemma_first(base.functions, key);
    lemma_first(target.functions, key);
    let b = first_with(base.functions, key);
    let t = first_with(target.functions, key);
    assert(change_of(key, b, t, file.status, file.hunks) == Some(change));
    match b {
        Some(f) => {
            let i = choose|i: int| 0 <= i < base.functions.len() && base.functions[i] == f;
            assert(is_of(change, base.functions[i]));
        },
        None => {
            assert forall|i: int| 0 <= i < base.functions.len() implies !is_of(change, #[trigger] base.functions[i]) by {
                assert(key_of(base.functions[i]) != key);
            }
        },
    }
    match t {
        Some(f) => {
            let i = choose|i: int| 0 <= i < target.functions.len() && target.functions[i] == f;
            assert(is_of(change, target.functions[i]));
        },
        None => {
            assert forall|i: int| 0 <= i < target.functions.len() implies !is_of(change, #[trigger] target.functions[i]) by {
                assert(key_of(target.functions[i]) != key);
            }
        },
    }
    if b is Some && t is Some {
        if exists|i: int| 0 <= i < file.hunks.len() && hunk_touches(Some(b->0.range), Some(t->0.range), #[trigger] file.hunks[i]) {
            let i = choose|i: int| 0 <= i < file.hunks.len() && hunk_touches(Some(b->0.range), Some(t->0.range), #[trigger] file.hunks[i]);
            assert(touches(change.base_range->0, file.hunks[i].base_start, file.hunks[i].base_count) || touches(
                change.target_range->0,
                file.hunks[i].target_start,
                file.hunks[i].target_count,
            ));
        }
    }
}

/// The condition of a place that a function of a language, kind and name stands
/// there.
pub open spec fn shares(functions: Seq<DefinitionView>, f: DefinitionView) -> spec_fn(int) -> bool {
    |i: int| functions[i].language == f.language && functions[i].kind == f.kind && functions[i].qualified_name == f.qualified_name
}

proof fn lemma_key_count(functions: Seq<DefinitionView>, f: DefinitionView)
    ensures
        key_count(functions, key_of(f)) == how_many(functions.len() as int, shares(functions, f)),
    decreases functions.len(),
{
    let n = functions.len() as int;
    if n > 0 {
        let fewer = functions.drop_last();
        lemma_key_count(fewer, f);
        lemma_how_many_same(n - 1, shares(functions, f), shares(fewer, f));
    }
}

/// A function whose language, kind and name another shares on either side is
/// not mapped but reported; any other is mapped once.
pub proof fn lemma_shared_names_are_reported(file: FileChangeView, base: SideView, target: SideView, f: DefinitionView)
    requires
        base.functions.contains(f) || target.functions.contains(f),
    ensures
        ({
            let out = mapped(file, base, target);
            let shared = how_many(base.functions.len() as int, shares(base.functions, f)) > 1 || how_many(
                target.functions.len() as int,
                shares(target.functions, f),
            ) > 1;
            &&& shared ==> forall|i: int| 0 <= i < out.functions.len() ==> change_key(#[trigger] out.functions[i]) != key_of(f)
            &&& shared ==> exists|i: int|
                0 <= i < out.diagnostics.len() && (#[trigger] out.diagnostics[i]).code == FunctionMappingDiagnosticCode::AmbiguousFunctionMatch
                    && out.diagnostics[i].severity == DiagnosticSeverity::Warning && out.diagnostics[i].qualified_name == Some(f.qualified_name)
            &&& !shared ==> exists|i: int| 0 <= i < out.functions.len() && change_key(#[trigger] out.functions[i]) == key_of(f)
        }),
{
    lemma_key_count(base.functions, f);
    lemma_key_count(target.functions, f);
    lemma_every_function_is_accounted_for(file, base, target, f);
    let out = mapped(file, base, target);
    if is_ambiguous(key_of(f), base.functions, target.functions) {
        let i = choose|i: int| 0 <= i < out.diagnostics.len() && out.diagnostics[i] == ambiguous(key_of(f).name);
        assert(out.diagnostics[i].code == FunctionMappingDiagnosticCode::AmbiguousFunctionMatch);
    }
}

/// The exports added are those that only the target has, the exports removed
/// those that only the base has, each in order.
pub proof fn lemma_exports_are_differences(file: FileChangeView, base: SideView, target: SideView)
    requires
        base.exports.finite(),
        target.exports.finite(),
    ensures
        ({
            let out = mapped(file, base, target);
            &&& forall|name: Seq<char>| #[trigger]
                out.exports_added.contains(name) <==> target.exports.contains(name) && !base.exports.contains(name)
            &&& forall|name: Seq<char>| #[trigger]
                out.exports_removed.contains(name) <==> base.exports.contains(name) && !target.exports.contains(name)
            &&& ascending(out.exports_added) && ascending(out.exports_removed)
            &&& out.base_path == file.base_path && out.target_path == file.target_path
        }),
{
    let out = mapped(file, base, target);
    lemma_finite_is_listed(target.exports.difference(base.exports));
    lemma_finite_is_listed(base.exports.difference(target.exports));
    assert forall|name: Seq<char>| #[trigger] out.exports_added.contains(name) <==> target.exports.contains(name) && !base.exports.contains(name) by {
        assert(out.exports_added.to_set().contains(name) <==> target.exports.difference(base.exports).contains(name));
    }
    assert forall|name: Seq<char>| #[trigger] out.exports_removed.contains(name) <==> base.exports.contains(name) && !target.exports.contains(name) by {
        assert(out.exports_removed.to_set().contains(name) <==> base.exports.difference(target.exports).contains(name));
    }
}

/// Whether a diagnostic of a mapping repeats one of a source file.
pub open spec fn repeats(d: LanguageDiagnosticView, m: MappingDiagnosticView) -> bool {
    &&& m.severity == d.severity
    &&& m.message == d.message
    &&& m.range == d.range
    &&& m.qualified_name is None
    &&& match d.code {
        LanguageDiagnosticCode::UnsupportedLanguage => m.code == FunctionMappingDiagnosticCode::UnsupportedLanguage,
        LanguageDiagnosticCode::InvalidUtf8 => m.code == FunctionMappingDiagnosticCode::InvalidUtf8,
        LanguageDiagnosticCode::MalformedSource => m.code == FunctionMappingDiagnosticCode::MalformedSource,
        LanguageDiagnosticCode::ParseError => m.code == FunctionMappingDiagnosticCode::ParseError,
        LanguageDiagnosticCode::OversizedFile => m.code == FunctionMappingDiagnosticCode::OversizedFile,
    }
}

/// Whether a diagnostic says that the content of a side is missing.
pub open spec fn says_missing(m: MappingDiagnosticView, side: Seq<char>) -> bool {
    m.code == FunctionMappingDiagnosticCode::BlobUnavailable && m.severity == DiagnosticSeverity::Error && m.message == side
        + " blob is unavailable for function mapping"@
}

/// A mapping passes on every diagnostic of both sides, and reports a side whose
/// content is missing.
pub proof fn lemma_diagnostics_are_passed_on(file: FileChangeView, base: SideView, target: SideView, i: int)
    ensures
        ({
            let out = mapped(file, base, target).diagnostics;
            &&& 0 <= i < base.diagnostics.len() ==> exists|k: int| 0 <= k < out.len() && repeats(base.diagnostics[i], #[trigger] out[k])
            &&& 0 <= i < target.diagnostics.len() ==> exists|k: int| 0 <= k < out.len() && repeats(target.diagnostics[i], #[trigger] out[k])
            &&& base.unavailable ==> exists|k: int| 0 <= k < out.len() && says_missing(#[trigger] out[k], "base"@)
            &&& target.unavailable ==> exists|k: int| 0 <= k < out.len() && says_missing(#[trigger] out[k], "target"@)
        }),
{
    let found = mapping_diagnostics(base, target);
    let out = mapped(file, base, target).diagnostics;
    let b = base.diagnostics.len() as int;
    let t = target.diagnostics.len() as int;
    if 0 <= i < b {
        assert(found[i] == passed_on(base.diagnostics[i]));
        lemma_diagnostic_is_kept(file, base, target, i);
    }
    if 0 <= i < t {
        assert(found[b + i] == passed_on(target.diagnostics[i]));
        lemma_diagnostic_is_kept(file, base, target, b + i);
    }
    if base.unavailable {
        assert(found[b + t] == unavailable("base"@));
        lemma_diagnostic_is_kept(file, base, target, b + t);
    }
    if target.unavailable {
        let at = b + t + (if base.unavailable {
            1int
        } else {
            0int
        });
        assert(found[at] == unavailable("target"@));
        lemma_diagnostic_is_kept(file, base, target, at);
    }
}

proof fn lemma_diagnostic_is_kept(file: FileChangeView, base: SideView, target: SideView, at: int)
    requires
        0 <= at < mapping_diagnostics(base, target).len(),
    ensures
        ({
            let out = mapped(file, base, target).diagnostics;
            exists|k: int| 0 <= k < out.len() && #[trigger] out[k] == mapping_diagnostics(base, target)[at]
        }),
{
    let found = mapping_diagnostics(base, target);
    let out = mapped(file, base, target).diagnostics;
    lemma_arranged_keeps(found, by_rank(mapping_diagnostic_order()));
    lemma_same_multiset(out, found);
    assert(found.contains(found[at]));
    assert(found.to_set().contains(found[at]));
    assert(out.to_set().contains(found[at]));
    let k = choose|k: int| 0 <= k < out.len() && out[k] == found[at];
    assert(out[k] == found[at]);
}

/// A side without a path, without content or of binary content has no
/// functions and no exports; only missing content is a fault. Else it has those
/// of its source.
pub proof fn lemma_side_is_read(path: Seq<char>, source: Seq<u8>)
    ensures
        side_of(None, BlobView::Available(source)) matches Ok(side) && side.functions.len() == 0 && !side.unavailable,
        side_of(Some(path), BlobView::Missing) matches Ok(side) && side.functions.len() == 0 && side.unavailable,
        side_of(Some(path), BlobView::Binary) matches Ok(side) && side.functions.len() == 0 && !side.unavailable,
        side_of(Some(path), BlobView::NotApplicable) matches Ok(side) && side.functions.len() == 0 && !side.unavailable,
        match source_outcome(path, source) {
            Ok(analysis) => side_of(Some(path), BlobView::Available(source)) matches Ok(side) && side.functions == analysis.functions && side.exports
                == analysis.surface.names && side.diagnostics == analysis.diagnostics && !side.unavailable,
            Err(error) => side_of(Some(path), BlobView::Available(source)) == Err::<SideView, ErrorView>(error),
        },
{
}

/// A change starts where the function starts after it, or before it where it is
/// gone.
pub proof fn lemma_change_starts_at_target(change: FunctionChangeView)
    ensures
        change.target_range matches Some(range) ==> change_start(change) == (range.start_line, range.start_column),
        change.target_range is None ==> (change.base_range matches Some(range) ==> change_start(change) == (range.start_line, range.start_column)),
{
}

} // verus!

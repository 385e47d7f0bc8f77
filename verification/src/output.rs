//! Reports for terminal users.

use vstd::prelude::*;

use crate::analysis::FunctionChangeStatus;
use crate::languages::{DiagnosticSeverity, FunctionKind, Language};
use crate::metrics::FunctionMetrics;
use crate::result::{AnalysisResult, Diagnostic, DiagnosticCode, DiagnosticView, FileResult, FileView, FunctionResult, FunctionView, ResultView};
use crate::text::{decimal, push_number, same_text, text_option};
use crate::FileStatus;

verus! {

/// The word for a file status.
pub open spec fn file_status_word(status: FileStatus) -> Seq<char> {
    match status {
        FileStatus::Added => "added"@,
        FileStatus::Deleted => "deleted"@,
        FileStatus::Modified => "modified"@,
        FileStatus::Renamed => "renamed"@,
        FileStatus::Binary => "binary"@,
    }
}

pub fn file_status(status: FileStatus) -> (r: &'static str)
    ensures
        r@ == file_status_word(status),
{
    match status {
        FileStatus::Added => "added",
        FileStatus::Deleted => "deleted",
        FileStatus::Modified => "modified",
        FileStatus::Renamed => "renamed",
        FileStatus::Binary => "binary",
    }
}

/// The word for a function status.
pub open spec fn function_status_word(status: FunctionChangeStatus) -> Seq<char> {
    match status {
        FunctionChangeStatus::Added => "added"@,
        FunctionChangeStatus::Removed => "removed"@,
        FunctionChangeStatus::Modified => "modified"@,
        FunctionChangeStatus::Unchanged => "unchanged"@,
    }
}

pub fn function_status(status: FunctionChangeStatus) -> (r: &'static str)
    ensures
        r@ == function_status_word(status),
{
    match status {
        FunctionChangeStatus::Added => "added",
        FunctionChangeStatus::Removed => "removed",
        FunctionChangeStatus::Modified => "modified",
        FunctionChangeStatus::Unchanged => "unchanged",
    }
}

/// The word for a language.
pub open spec fn language_word(language: Language) -> Seq<char> {
    match language {
        Language::TypeScript => "typescript"@,
        Language::Tsx => "tsx"@,
    }
}

pub fn language(value: Language) -> (r: &'static str)
    ensures
        r@ == language_word(value),
{
    match value {
        Language::TypeScript => "typescript",
        Language::Tsx => "tsx",
    }
}

/// The word for a function kind.
pub open spec fn function_kind_word(kind: FunctionKind) -> Seq<char> {
    match kind {
        FunctionKind::Function => "function"@,
        FunctionKind::Method => "method"@,
        FunctionKind::Constructor => "constructor"@,
        FunctionKind::ArrowFunction => "arrow_function"@,
    }
}

pub fn function_kind(kind: FunctionKind) -> (r: &'static str)
    ensures
        r@ == function_kind_word(kind),
{
    match kind {
        FunctionKind::Function => "function",
        FunctionKind::Method => "method",
        FunctionKind::Constructor => "constructor",
        FunctionKind::ArrowFunction => "arrow_function",
    }
}

/// The word for a severity.
pub open spec fn severity_word(severity: DiagnosticSeverity) -> Seq<char> {
    match severity {
        DiagnosticSeverity::Info => "info"@,
        DiagnosticSeverity::Warning => "warning"@,
        DiagnosticSeverity::Error => "error"@,
    }
}

pub fn severity(value: DiagnosticSeverity) -> (r: &'static str)
    ensures
        r@ == severity_word(value),
{
    match value {
        DiagnosticSeverity::Info => "info",
        DiagnosticSeverity::Warning => "warning",
        DiagnosticSeverity::Error => "error",
    }
}

/// The word for a diagnostic code.
pub open spec fn diagnostic_code_word(code: DiagnosticCode) -> Seq<char> {
    match code {
        DiagnosticCode::UnsupportedLanguage => "unsupported_language"@,
        DiagnosticCode::BinaryFile => "binary_file"@,
        DiagnosticCode::MalformedSource => "malformed_source"@,
        DiagnosticCode::ParseError => "parse_error"@,
        DiagnosticCode::InvalidUtf8 => "invalid_utf8"@,
        DiagnosticCode::OversizedFile => "oversized_file"@,
        DiagnosticCode::MissingBlob => "missing_blob"@,
        DiagnosticCode::GitError => "git_error"@,
        DiagnosticCode::AmbiguousFunctionMatch => "ambiguous_function_match"@,
        DiagnosticCode::MetricUnavailable => "metric_unavailable"@,
    }
}

pub fn diagnostic_code(code: DiagnosticCode) -> (r: &'static str)
    ensures
        r@ == diagnostic_code_word(code),
{
    match code {
        DiagnosticCode::UnsupportedLanguage => "unsupported_language",
        DiagnosticCode::BinaryFile => "binary_file",
        DiagnosticCode::MalformedSource => "malformed_source",
        DiagnosticCode::ParseError => "parse_error",
        DiagnosticCode::InvalidUtf8 => "invalid_utf8",
        DiagnosticCode::OversizedFile => "oversized_file",
        DiagnosticCode::MissingBlob => "missing_blob",
        DiagnosticCode::GitError => "git_error",
        DiagnosticCode::AmbiguousFunctionMatch => "ambiguous_function_match",
        DiagnosticCode::MetricUnavailable => "metric_unavailable",
    }
}

/// The paths of a file as one text.
pub open spec fn shown_path(base: Option<Seq<char>>, target: Option<Seq<char>>) -> Seq<char> {
    match (base, target) {
        (Some(base), Some(target)) => if base != target {
            base + " -> "@ + target
        } else {
            target
        },
        (None, Some(target)) => target,
        (Some(base), None) => base,
        (None, None) => "<unknown>"@,
    }
}

fn push_path(out: &mut String, file: &FileResult)
    ensures
        final(out)@ == old(out)@ + shown_path(text_option(file.base_path), text_option(file.target_path)),
{
    match (&file.base_path, &file.target_path) {
        (Some(base), Some(target)) => {
            if !same_text(base.as_str(), target.as_str()) {
                out.append(base.as_str());
                out.append(" -> ");
            }
            out.append(target.as_str());
            assert(out@ =~= old(out)@ + shown_path(text_option(file.base_path), text_option(file.target_path)));
        },
        (None, Some(target)) => {
            out.append(target.as_str());
        },
        (Some(base), None) => {
            out.append(base.as_str());
        },
        (None, None) => {
            out.append("<unknown>");
        },
    }
}

/// Metrics as one text; a dash where there are none.
pub open spec fn shown_metrics(metrics: Option<FunctionMetrics>) -> Seq<char> {
    match metrics {
        Some(m) => "loc "@ + decimal(m.physical_loc as nat) + "/"@ + decimal(m.source_loc as nat) + ", cyclo "@ + decimal(
            m.cyclomatic_complexity as nat,
        ) + ", cognitive "@ + decimal(m.cognitive_complexity as nat),
        None => "-"@,
    }
}

fn push_metrics(out: &mut String, metrics: &Option<FunctionMetrics>)
    ensures
        final(out)@ == old(out)@ + shown_metrics(*metrics),
{
    match metrics {
        Some(m) => {
            out.append("loc ");
            push_number(out, m.physical_loc as u64);
            out.append("/");
            push_number(out, m.source_loc as u64);
            out.append(", cyclo ");
            push_number(out, m.cyclomatic_complexity as u64);
            out.append(", cognitive ");
            push_number(out, m.cognitive_complexity as u64);
            assert(out@ =~= old(out)@ + shown_metrics(*metrics));
        },
        None => {
            out.append("-");
        },
    }
}

/// The line of a diagnostic.
pub open spec fn diagnostic_line(d: DiagnosticView, indent: Seq<char>) -> Seq<char> {
    indent + severity_word(d.severity) + " "@ + diagnostic_code_word(d.code) + ": "@ + d.message + "\n"@
}

fn push_diagnostic(out: &mut String, diagnostic: &Diagnostic, indent: &str)
    ensures
        final(out)@ == old(out)@ + diagnostic_line(diagnostic@, indent@),
{
    out.append(indent);
    out.append(severity(diagnostic.severity));
    out.append(" ");
    out.append(diagnostic_code(diagnostic.code));
    out.append(": ");
    out.append(diagnostic.message.as_str());
    out.append("\n");
    assert(out@ =~= old(out)@ + diagnostic_line(diagnostic@, indent@));
}

/// The lines of diagnostics.
pub open spec fn diagnostic_lines(all: Seq<DiagnosticView>, indent: Seq<char>) -> Seq<char>
    decreases all.len(),
{
    if all.len() == 0 {
        Seq::empty()
    } else {
        diagnostic_lines(all.drop_last(), indent) + diagnostic_line(all.last(), indent)
    }
}

fn push_diagnostics(out: &mut String, all: &Vec<Diagnostic>, indent: &str)
    ensures
        final(out)@ == old(out)@ + diagnostic_lines(crate::result::diagnostic_views(all@), indent@),
{
    let ghost views = crate::result::diagnostic_views(all@);
    let ghost start = out@;
    let mut i: usize = 0;
    assert(start + diagnostic_lines(views.take(0), indent@) =~= start);
    while i < all.len()
        invariant
            i <= all.len(),
            views == crate::result::diagnostic_views(all@),
            out@ == start + diagnostic_lines(views.take(i as int), indent@),
        decreases all.len() - i,
    {
        push_diagnostic(out, &all[i], indent);
        proof {
            assert(views.take(i + 1).drop_last() =~= views.take(i as int));
            assert(views[i as int] == all@[i as int]@);
            assert(out@ =~= start + diagnostic_lines(views.take(i + 1), indent@));
        }
        i = i + 1;
    }
    assert(views.take(i as int) =~= views);
}

/// The line of a function.
pub open spec fn function_line(f: FunctionView) -> Seq<char> {
    "  "@ + function_status_word(f.status) + " "@ + f.qualified_name + " ["@ + shown_metrics(f.metrics_before) + " -> "@ + shown_metrics(
        f.metrics_after,
    ) + "]\n"@
}

fn push_function(out: &mut String, function: &FunctionResult)
    ensures
        final(out)@ == old(out)@ + function_line(function@),
{
    out.append("  ");
    out.append(function_status(function.status));
    out.append(" ");
    out.append(function.qualified_name.as_str());
    out.append(" [");
    push_metrics(out, &function.metrics_before);
    out.append(" -> ");
    push_metrics(out, &function.metrics_after);
    out.append("]\n");
    assert(out@ =~= old(out)@ + function_line(function@));
}

/// The lines of functions.
pub open spec fn function_lines(all: Seq<FunctionView>) -> Seq<char>
    decreases all.len(),
{
    if all.len() == 0 {
        Seq::empty()
    } else {
        function_lines(all.drop_last()) + function_line(all.last())
    }
}

fn push_functions(out: &mut String, all: &Vec<FunctionResult>)
    ensures
        final(out)@ == old(out)@ + function_lines(crate::result::function_views(all@)),
{
    let ghost views = crate::result::function_views(all@);
    let ghost start = out@;
    let mut i: usize = 0;
    assert(start + function_lines(views.take(0)) =~= start);
    while i < all.len()
        invariant
            i <= all.len(),
            views == crate::result::function_views(all@),
            out@ == start + function_lines(views.take(i as int)),
        decreases all.len() - i,
    {
        push_function(out, &all[i]);
        proof {
            assert(views.take(i + 1).drop_last() =~= views.take(i as int));
            assert(views[i as int] == all@[i as int]@);
            assert(out@ =~= start + function_lines(views.take(i + 1)));
        }
        i = i + 1;
    }
    assert(views.take(i as int) =~= views);
}

/// The lines of a file: itself, its functions, its diagnostics.
pub open spec fn file_lines(f: FileView) -> Seq<char> {
    file_status_word(f.status) + " "@ + shown_path(f.base_path, f.target_path) + " (+"@ + decimal(f.added_lines as nat) + " -"@ + decimal(
        f.removed_lines as nat,
    ) + ")\n"@ + function_lines(f.functions) + diagnostic_lines(f.diagnostics, "  "@)
}

fn push_file(out: &mut String, file: &FileResult)
    ensures
        final(out)@ == old(out)@ + file_lines(file@),
{
    let mut text = file_status(file.status).to_owned();
    text.append(" ");
    push_path(&mut text, file);
    text.append(" (+");
    push_number(&mut text, file.added_lines as u64);
    text.append(" -");
    push_number(&mut text, file.removed_lines as u64);
    text.append(")\n");
    push_functions(&mut text, &file.functions);
    push_diagnostics(&mut text, &file.diagnostics, "  ");
    out.append(text.as_str());
}

/// The lines of files.
pub open spec fn all_file_lines(all: Seq<FileView>) -> Seq<char>
    decreases all.len(),
{
    if all.len() == 0 {
        Seq::empty()
    } else {
        all_file_lines(all.drop_last()) + file_lines(all.last())
    }
}

/// The report of an analysis.
pub open spec fn human_report(r: ResultView) -> Seq<char> {
    "DiffScope "@ + r.base.display_name + ".."@ + r.target.display_name + "\nRepository: "@ + r.repository + "\n"@ + decimal(
        r.summary.changed_files as nat,
    ) + " changed files, +"@ + decimal(r.summary.added_lines as nat) + " -"@ + decimal(r.summary.removed_lines as nat) + " ("@ + decimal(
        r.summary.supported_files as nat,
    ) + " supported, "@ + decimal(r.summary.unsupported_files as nat) + " unsupported)\n"@ + all_file_lines(r.files) + diagnostic_lines(
        r.diagnostics,
        ""@,
    )
}

/// Render a concise deterministic report for terminal users.
#[must_use]
pub fn render_human(result: &AnalysisResult) -> (r: String)
    ensures
        r@ == human_report(result@),
{
    let mut out = "DiffScope ".to_owned();
    out.append(result.base.display_name.as_str());
    out.append("..");
    out.append(result.target.display_name.as_str());
    out.append("\nRepository: ");
    out.append(result.repository.as_str());
    out.append("\n");
    push_number(&mut out, result.summary.changed_files as u64);
    out.append(" changed files, +");
    push_number(&mut out, result.summary.added_lines as u64);
    out.append(" -");
    push_number(&mut out, result.summary.removed_lines as u64);
    out.append(" (");
    push_number(&mut out, result.summary.supported_files as u64);
    out.append(" supported, ");
    push_number(&mut out, result.summary.unsupported_files as u64);
    out.append(" unsupported)\n");
    let ghost head = out@;
    let ghost views = crate::result::file_views(result.files@);
    let mut i: usize = 0;
    assert(head + all_file_lines(views.take(0)) =~= head);
    while i < result.files.len()
        invariant
            i <= result.files.len(),
            views == crate::result::file_views(result.files@),
            out@ == head + all_file_lines(views.take(i as int)),
        decreases result.files.len() - i,
    {
        push_file(&mut out, &result.files[i]);
        proof {
            assert(views.take(i + 1).drop_last() =~= views.take(i as int));
            assert(views[i as int] == result.files@[i as int]@);
            assert(out@ =~= head + all_file_lines(views.take(i + 1)));
        }
        i = i + 1;
    }
    assert(views.take(i as int) =~= views);
    push_diagnostics(&mut out, &result.diagnostics, "");
    out
}

} // verus!

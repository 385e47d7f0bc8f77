//! Source languages: what is read of one source file, and how.

pub mod modules;
pub mod syntax;
pub mod typescript;

use vstd::prelude::*;

use crate::collections::{TextMap, TextSet};
use crate::languages::modules::{binding_map, facts_from, read_imports, symbol_map, BindingView, FactsView, SurfaceView};
use crate::languages::syntax::{grammar_fault, parse_source, syntax_tree};
use crate::metrics::FunctionMetrics;
use crate::text::{chars_of, decimal, find_last, join2, join3, last_of, number_text, same_text, split_on, split_text, text_of, text_option, texts};
use crate::{DiffScopeError, ErrorView};

pub use modules::{ExportedSymbol, ImportBinding, ImportFacts, ImportedName};
pub use typescript::TypeScriptAnalyzer;

verus! {

#[derive(Debug, Clone, Copy, PartialEq, Eq, PartialOrd, Ord, Structural)]
pub enum Language {
    TypeScript,
    Tsx,
}

#[derive(Debug, Clone, Copy, PartialEq, Eq, PartialOrd, Ord, Structural)]
pub enum FunctionKind {
    Function,
    Method,
    Constructor,
    ArrowFunction,
}

#[derive(Debug, Clone, Copy, PartialEq, Eq, Structural)]
pub struct SourceRange {
    pub start_line: u32,
    pub start_column: u32,
    pub end_line: u32,
    pub end_column: u32,
}

/// One call written inside a function body.
///
/// A plain identifier callee is a call to a name the file has. A member callee
/// is recorded in the two shapes that write a property name, `receiver.name()`
/// and `receiver["name"]()`. A computed callee with a non-literal key, a call on
/// a call, and a deeper chain record nothing at all.
#[derive(Debug, Clone, PartialEq, Eq)]
pub struct CallSite {
    /// Callee text as written, or the property name for a member callee.
    pub name: String,
    /// The receiver a member callee was written on, if it was one.
    pub receiver: Option<String>,
    /// 1-based line the call expression starts on.
    pub line: u32,
}

/// A call by what its texts hold.
#[verifier::ext_equal]
pub struct CallView {
    pub name: Seq<char>,
    pub receiver: Option<Seq<char>>,
    pub line: u32,
}

impl View for CallSite {
    type V = CallView;

    open spec fn view(&self) -> CallView {
        CallView { name: self.name@, receiver: crate::text::text_option(self.receiver), line: self.line }
    }
}

/// The views of a sequence of calls.
pub open spec fn call_views(calls: Seq<CallSite>) -> Seq<CallView> {
    calls.map_values(|c: CallSite| c@)
}

/// Copies of calls, in the same order.
pub(crate) fn copy_calls(calls: &Vec<CallSite>) -> (r: Vec<CallSite>)
    ensures
        call_views(r@) == call_views(calls@),
{
    let mut out: Vec<CallSite> = Vec::new();
    let mut i: usize = 0;
    while i < calls.len()
        invariant
            i <= calls.len(),
            out.len() == i,
            forall|j: int| 0 <= j < i ==> (#[trigger] out@[j])@ == calls@[j]@,
        decreases calls.len() - i,
    {
        let call = &calls[i];
        out.push(CallSite { name: call.name.clone(), receiver: crate::collections::copy_option(&call.receiver), line: call.line });
        i = i + 1;
    }
    assert(call_views(out@) =~= call_views(calls@));
    out
}

#[derive(Debug, Clone, PartialEq, Eq)]
pub struct FunctionDefinition {
    pub language: Language,
    pub kind: FunctionKind,
    pub qualified_name: String,
    pub range: SourceRange,
    pub metrics: FunctionMetrics,
    /// Calls written directly in this body, in source order, duplicates kept.
    ///
    /// A call inside a nested function belongs to that nested function, not to
    /// the one enclosing it.
    pub calls: Vec<CallSite>,
    /// Hash of the function's source with whitespace runs collapsed.
    pub body_hash: u64,
}

/// A function by what its texts hold.
#[verifier::ext_equal]
pub struct DefinitionView {
    pub language: Language,
    pub kind: FunctionKind,
    pub qualified_name: Seq<char>,
    pub range: SourceRange,
    pub metrics: FunctionMetrics,
    pub calls: Seq<CallView>,
    pub body_hash: u64,
}

impl View for FunctionDefinition {
    type V = DefinitionView;

    open spec fn view(&self) -> DefinitionView {
        DefinitionView {
            language: self.language,
            kind: self.kind,
            qualified_name: self.qualified_name@,
            range: self.range,
            metrics: self.metrics,
            calls: call_views(self.calls@),
            body_hash: self.body_hash,
        }
    }
}

/// The views of a sequence of functions.
pub open spec fn definition_views(functions: Seq<FunctionDefinition>) -> Seq<DefinitionView> {
    functions.map_values(|f: FunctionDefinition| f@)
}

#[derive(Debug, PartialEq, Eq)]
pub struct SourceAnalysis {
    pub language: Option<Language>,
    pub functions: Vec<FunctionDefinition>,
    /// Names this module exports, as a caller would import them.
    ///
    /// A whole-module re-export is `*`: the names it forwards are written in a
    /// file that has not been read.
    pub exports: TextSet,
    /// The same names, each with what stands behind it. A whole-module
    /// re-export is never a key here.
    pub exported_symbols: TextMap<ExportedSymbol>,
    /// Specifiers this module re-exports from, including `export * from`.
    pub re_exported_modules: TextSet,
    pub diagnostics: Vec<LanguageDiagnostic>,
}

/// An analysis by what its lists hold.
#[verifier::ext_equal]
pub struct AnalysisView {
    pub language: Option<Language>,
    pub functions: Seq<DefinitionView>,
    pub surface: SurfaceView,
    pub diagnostics: Seq<LanguageDiagnosticView>,
}

impl View for SourceAnalysis {
    type V = AnalysisView;

    open spec fn view(&self) -> AnalysisView {
        AnalysisView {
            language: self.language,
            functions: definition_views(self.functions@),
            surface: SurfaceView {
                names: self.exports@,
                symbols: symbol_map(self.exported_symbols@),
                modules: self.re_exported_modules@,
            },
            diagnostics: diagnostic_views(self.diagnostics@),
        }
    }
}

#[derive(Debug, Clone, PartialEq, Eq)]
pub struct LanguageDiagnostic {
    pub code: LanguageDiagnosticCode,
    pub severity: DiagnosticSeverity,
    pub message: String,
    pub range: Option<SourceRange>,
}

/// A diagnostic by what its texts hold.
#[verifier::ext_equal]
pub struct LanguageDiagnosticView {
    pub code: LanguageDiagnosticCode,
    pub severity: DiagnosticSeverity,
    pub message: Seq<char>,
    pub range: Option<SourceRange>,
}

impl View for LanguageDiagnostic {
    type V = LanguageDiagnosticView;

    open spec fn view(&self) -> LanguageDiagnosticView {
        LanguageDiagnosticView { code: self.code, severity: self.severity, message: self.message@, range: self.range }
    }
}

/// The views of a sequence of diagnostics.
pub open spec fn diagnostic_views(diagnostics: Seq<LanguageDiagnostic>) -> Seq<LanguageDiagnosticView> {
    diagnostics.map_values(|d: LanguageDiagnostic| d@)
}

#[derive(Debug, Clone, Copy, PartialEq, Eq, Structural)]
pub enum LanguageDiagnosticCode {
    UnsupportedLanguage,
    InvalidUtf8,
    MalformedSource,
    ParseError,
    OversizedFile,
}

#[derive(Debug, Clone, Copy, PartialEq, Eq, PartialOrd, Ord, Structural)]
pub enum DiagnosticSeverity {
    Info,
    Warning,
    Error,
}

/// Largest source blob that is parsed for metrics.
///
/// A syntax tree costs many times the source it describes, and both revisions
/// of a file are analyzed, so an unbounded file size would be an unbounded
/// memory requirement. Files above this limit are still inventoried, with their
/// diff statistics and a diagnostic, but no function metrics.
pub const MAX_ANALYZED_BLOB_BYTES: usize = 5 * 1024 * 1024;

/// The tag that a symbol id begins with.
pub open spec fn kind_tag(kind: FunctionKind) -> Seq<char> {
    match kind {
        FunctionKind::Function => "fn"@,
        FunctionKind::Method => "method"@,
        FunctionKind::Constructor => "ctor"@,
        FunctionKind::ArrowFunction => "arrow"@,
    }
}

/// The address of one function within its file.
pub open spec fn symbol(kind: FunctionKind, qualified_name: Seq<char>) -> Seq<char> {
    kind_tag(kind) + ":"@ + qualified_name
}

/// Address one function within its file, independently of line numbers.
///
/// The kind is part of it because a name alone does not separate a method from
/// an arrow function assigned to a property of the same name.
#[must_use]
pub fn symbol_id(kind: FunctionKind, qualified_name: &str) -> (r: String)
    ensures
        r@ == symbol(kind, qualified_name@),
{
    let tag = match kind {
        FunctionKind::Function => "fn",
        FunctionKind::Method => "method",
        FunctionKind::Constructor => "ctor",
        FunctionKind::ArrowFunction => "arrow",
    };
    join3(tag, ":", qualified_name)
}

/// The position of the tag's end: the first colon of a symbol id.
proof fn lemma_tags()
    ensures
        kind_tag(FunctionKind::Function) == seq!['f', 'n'],
        kind_tag(FunctionKind::Method) == seq!['m', 'e', 't', 'h', 'o', 'd'],
        kind_tag(FunctionKind::Constructor) == seq!['c', 't', 'o', 'r'],
        kind_tag(FunctionKind::ArrowFunction) == seq!['a', 'r', 'r', 'o', 'w'],
        ":"@ == seq![':'],
{
    reveal_strlit("fn");
    reveal_strlit("method");
    reveal_strlit("ctor");
    reveal_strlit("arrow");
    reveal_strlit(":");
    assert("fn"@ =~= seq!['f', 'n']);
    assert("method"@ =~= seq!['m', 'e', 't', 'h', 'o', 'd']);
    assert("ctor"@ =~= seq!['c', 't', 'o', 'r']);
    assert("arrow"@ =~= seq!['a', 'r', 'r', 'o', 'w']);
    assert(":"@ =~= seq![':']);
}

/// A symbol id names one kind and one qualified name.
pub proof fn lemma_symbol_injective(a: FunctionKind, a_name: Seq<char>, b: FunctionKind, b_name: Seq<char>)
    requires
        symbol(a, a_name) == symbol(b, b_name),
    ensures
        a == b,
        a_name == b_name,
{
    lemma_tags();
    let x = symbol(a, a_name);
    let y = symbol(b, b_name);
    assert(x[0] == kind_tag(a)[0]);
    assert(y[0] == kind_tag(b)[0]);
    assert(a == b);
    let n = kind_tag(a).len() + 1;
    assert(x.skip(n as int) =~= a_name);
    assert(y.skip(n as int) =~= b_name);
}

/// Whether a piece of a path names something: it is not empty and not a dot.
pub open spec fn names_something(piece: Seq<char>) -> bool {
    piece.len() > 0 && piece != "."@
}

/// The last piece of a path that names something.
pub open spec fn last_name(pieces: Seq<Seq<char>>) -> Option<Seq<char>>
    decreases pieces.len(),
{
    if pieces.len() == 0 {
        None
    } else if names_something(pieces.last()) {
        if pieces.last() == ".."@ {
            None
        } else {
            Some(pieces.last())
        }
    } else {
        last_name(pieces.drop_last())
    }
}

/// The extension of a path: what follows the last dot of its file name, unless
/// that dot opens the name.
pub open spec fn extension(path: Seq<char>) -> Option<Seq<char>> {
    match last_name(split_on(path, '/')) {
        None => None,
        Some(name) => {
            let dot = last_of(name, '.');
            if dot == 0 || dot >= name.len() {
                None
            } else {
                Some(name.skip(dot as int + 1))
            }
        },
    }
}

/// The language of a path.
pub open spec fn language_of(path: Seq<char>) -> Option<Language> {
    match extension(path) {
        None => None,
        Some(ext) => if ext == "ts"@ || ext == "mts"@ || ext == "cts"@ {
            Some(Language::TypeScript)
        } else if ext == "tsx"@ {
            Some(Language::Tsx)
        } else {
            None
        },
    }
}

/// The extension of a path.
fn path_extension(path: &str) -> (r: Option<String>)
    ensures
        text_option(r) == extension(path@),
{
    let pieces = split_text(path, '/');
    let ghost names = split_on(path@, '/');
    let mut n: usize = pieces.len();
    assert(names.take(n as int) =~= names);
    while n > 0
        invariant
            texts(pieces@) == names,
            names == split_on(path@, '/'),
            n <= pieces.len(),
            last_name(names.take(n as int)) == last_name(names),
        decreases n,
    {
        let piece = &pieces[n - 1];
        assert(names[n - 1] == piece@);
        assert(names.take(n as int).last() == piece@);
        assert(names.take(n as int).drop_last() =~= names.take(n - 1));
        if !piece.as_str().is_empty() && !same_text(piece.as_str(), ".") {
            if same_text(piece.as_str(), "..") {
                return None;
            }
            let chars = chars_of(piece.as_str());
            let dot = find_last(&chars, '.');
            if dot == 0 || dot >= chars.len() {
                return None;
            }
            assert(piece@.skip(dot + 1) =~= piece@.subrange(dot + 1, piece@.len() as int));
            return Some(text_of(&chars, dot + 1, chars.len()));
        }
        n = n - 1;
    }
    None
}

/// The language of a path, by its extension.
pub fn detect_language(path: &str) -> (r: Option<Language>)
    ensures
        r == language_of(path@),
{
    match path_extension(path) {
        None => None,
        Some(ext) => {
            let ext = ext.as_str();
            if same_text(ext, "ts") || same_text(ext, "mts") || same_text(ext, "cts") {
                Some(Language::TypeScript)
            } else if same_text(ext, "tsx") {
                Some(Language::Tsx)
            } else {
                None
            }
        },
    }
}

/// The analysis of a file whose language is not supported.
pub open spec fn unsupported_analysis() -> AnalysisView {
    AnalysisView {
        language: None,
        functions: Seq::empty(),
        surface: SurfaceView::empty(),
        diagnostics: seq![
            LanguageDiagnosticView {
                code: LanguageDiagnosticCode::UnsupportedLanguage,
                severity: DiagnosticSeverity::Info,
                message: "unsupported language"@,
                range: None,
            },
        ],
    }
}

/// The analysis of a file that is too large to be parsed.
pub open spec fn oversized_analysis(language: Language, bytes: nat) -> AnalysisView {
    AnalysisView {
        language: Some(language),
        functions: Seq::empty(),
        surface: SurfaceView::empty(),
        diagnostics: seq![
            LanguageDiagnosticView {
                code: LanguageDiagnosticCode::OversizedFile,
                severity: DiagnosticSeverity::Warning,
                message: "source is "@ + decimal(bytes)
                    + " bytes, above the 5242880 byte analysis limit; function metrics are unavailable"@,
                range: None,
            },
        ],
    }
}

/// What is read of a source file: its language decides, then its size.
pub open spec fn source_outcome(path: Seq<char>, source: Seq<u8>) -> Result<AnalysisView, ErrorView> {
    match language_of(path) {
        None => Ok(unsupported_analysis()),
        Some(language) => if source.len() > MAX_ANALYZED_BLOB_BYTES {
            Ok(oversized_analysis(language, source.len()))
        } else {
            typescript::source_analysis(language, source)
        },
    }
}

/// The outcome of an analysis, by what it holds.
pub open spec fn analysis_outcome(r: Result<SourceAnalysis, DiffScopeError>) -> Result<AnalysisView, ErrorView> {
    match r {
        Ok(analysis) => Ok(analysis@),
        Err(error) => Err(error@),
    }
}

/// An analysis without functions and with one diagnostic.
pub(crate) fn diagnosed(language: Option<Language>, code: LanguageDiagnosticCode, severity: DiagnosticSeverity, message: String) -> (r: SourceAnalysis)
    ensures
        r@ == (AnalysisView {
            language,
            functions: Seq::empty(),
            surface: SurfaceView::empty(),
            diagnostics: seq![LanguageDiagnosticView { code, severity, message: message@, range: None }],
        }),
{
    let mut diagnostics: Vec<LanguageDiagnostic> = Vec::new();
    diagnostics.push(LanguageDiagnostic { code, severity, message, range: None });
    let r = SourceAnalysis {
        language,
        functions: Vec::new(),
        exports: TextSet::new(),
        exported_symbols: TextMap::new(),
        re_exported_modules: TextSet::new(),
        diagnostics,
    };
    proof {
        assert(r@.surface =~= SurfaceView::empty());
        assert(r@.functions =~= Seq::<DefinitionView>::empty());
        assert(r@.diagnostics =~= seq![LanguageDiagnosticView { code, severity, message: message@, range: None }]);
    }
    r
}

/// Analyze one source blob using the analyzer selected from its path.
///
/// Fails when the grammar cannot be loaded or no syntax tree is produced.
pub fn analyze_source(path: &str, source: &[u8]) -> (r: Result<SourceAnalysis, DiffScopeError>)
    ensures
        analysis_outcome(r) == source_outcome(path@, source@),
{
    let language = match detect_language(path) {
        None => {
            return Ok(
                diagnosed(
                    None,
                    LanguageDiagnosticCode::UnsupportedLanguage,
                    DiagnosticSeverity::Info,
                    "unsupported language".to_owned(),
                ),
            );
        },
        Some(language) => language,
    };
    if source.len() > MAX_ANALYZED_BLOB_BYTES {
        let message = join3(
            "source is ",
            number_text(source.len() as u64).as_str(),
            " bytes, above the 5242880 byte analysis limit; function metrics are unavailable",
        );
        return Ok(
            diagnosed(Some(language), LanguageDiagnosticCode::OversizedFile, DiagnosticSeverity::Warning, message),
        );
    }
    match TypeScriptAnalyzer::new(language) {
        Ok(analyzer) => analyzer.analyze(source),
        Err(error) => Err(error),
    }
}

/// The hash of bytes behind a given hash, each run of white space taken as one
/// space: 64-bit FNV-1a.
pub open spec fn hash_from(bytes: Seq<u8>, hash: u64, pending_space: bool) -> u64
    decreases bytes.len(),
{
    if bytes.len() == 0 {
        hash
    } else if is_ascii_space(bytes[0]) {
        hash_from(bytes.drop_first(), hash, true)
    } else {
        let spaced = if pending_space {
            hash_step(hash, 32)
        } else {
            hash
        };
        hash_from(bytes.drop_first(), hash_step(spaced, bytes[0]), false)
    }
}

/// One step of 64-bit FNV-1a.
pub open spec fn hash_step(hash: u64, byte: u8) -> u64 {
    (((hash ^ (byte as u64)) * 0x0000_0100_0000_01b3) % 0x1_0000_0000_0000_0000) as u64
}

/// Whether a byte is ASCII white space.
pub open spec fn is_ascii_space(b: u8) -> bool {
    b == 9 || b == 10 || b == 12 || b == 13 || b == 32
}

/// The hash of a text, without the white space at either end.
pub open spec fn text_hash(text: Seq<char>) -> u64 {
    hash_from(
        vstd::utf8::encode_utf8(crate::text::trim_by(text, crate::text::spaces())),
        0xcbf2_9ce4_8422_2325,
        false,
    )
}

fn mixed(hash: u64, byte: u8) -> (r: u64)
    ensures
        r == hash_step(hash, byte),
{
    let x: u64 = hash ^ (byte as u64);
    x.wrapping_mul(0x0000_0100_0000_01b3)
}

/// Hash source text, treating every run of whitespace as a single space.
#[must_use]
pub fn body_hash(text: &str) -> (r: u64)
    ensures
        r == text_hash(text@),
{
    let trimmed = crate::text::trim(text);
    let bytes = trimmed.as_str().as_bytes();
    let mut hash: u64 = 0xcbf2_9ce4_8422_2325;
    let mut pending_space = false;
    let mut i: usize = 0;
    assert(bytes@.skip(0) =~= bytes@);
    while i < bytes.len()
        invariant
            i <= bytes.len(),
            hash_from(bytes@.skip(i as int), hash, pending_space) == text_hash(text@),
        decreases bytes.len() - i,
    {
        let byte: u8 = bytes[i];
        assert(bytes@.skip(i as int)[0] == byte);
        assert(bytes@.skip(i as int).drop_first() =~= bytes@.skip(i + 1));
        if byte == 9 || byte == 10 || byte == 12 || byte == 13 || byte == 32 {
            pending_space = true;
        } else {
            if pending_space {
                hash = mixed(hash, 32);
                pending_space = false;
            }
            hash = mixed(hash, byte);
        }
        i = i + 1;
    }
    assert(bytes@.skip(bytes.len() as int).len() == 0);
    hash
}

/// A number that has to fit 32 bits, or the error that names it.
pub open spec fn fits_u32(value: int, name: Seq<char>) -> Result<u32, ErrorView> {
    if value <= u32::MAX {
        Ok(value as u32)
    } else {
        Err(ErrorView::Language(name + " is too large: out of range integral type conversion attempted"@))
    }
}

/// A count of rows or columns as a 32-bit number.
pub(crate) fn to_u32(value: usize, plus: u32, name: &str) -> (r: Result<u32, DiffScopeError>)
    requires
        plus <= 1,
    ensures
        match r {
            Ok(n) => fits_u32(value + plus, name@) == Ok::<u32, ErrorView>(n),
            Err(error) => fits_u32(value + plus, name@) == Err::<u32, ErrorView>(error@),
        },
{
    if value <= (u32::MAX - plus) as usize {
        Ok(value as u32 + plus)
    } else {
        Err(
            DiffScopeError::Language(join2(name, " is too large: out of range integral type conversion attempted")),
        )
    }
}

/// The source range of zero-based rows and columns: lines count from one.
pub open spec fn range_from(start_row: int, start_column: int, end_row: int, end_column: int) -> Result<SourceRange, ErrorView> {
    match fits_u32(start_row + 1, "start line"@) {
        Err(error) => Err(error),
        Ok(start_line) => match fits_u32(start_column, "start column"@) {
            Err(error) => Err(error),
            Ok(start_column) => match fits_u32(end_row + 1, "end line"@) {
                Err(error) => Err(error),
                Ok(end_line) => match fits_u32(end_column, "end column"@) {
                    Err(error) => Err(error),
                    Ok(end_column) => Ok(SourceRange { start_line, start_column, end_line, end_column }),
                },
            },
        },
    }
}

impl SourceRange {
    /// The source range of zero-based rows and columns.
    pub fn from_points(start_row: usize, start_column: usize, end_row: usize, end_column: usize) -> (r: Result<Self, DiffScopeError>)
        ensures
            match r {
                Ok(range) => range_from(start_row as int, start_column as int, end_row as int, end_column as int) == Ok::<
                    SourceRange,
                    ErrorView,
                >(range),
                Err(error) => range_from(start_row as int, start_column as int, end_row as int, end_column as int) == Err::<
                    SourceRange,
                    ErrorView,
                >(error@),
            },
    {
        let start_line: u32 = match to_u32(start_row, 1, "start line") {
            Ok(n) => n,
            Err(error) => {
                return Err(error);
            },
        };
        let start_column: u32 = match to_u32(start_column, 0, "start column") {
            Ok(n) => n,
            Err(error) => {
                return Err(error);
            },
        };
        let end_line: u32 = match to_u32(end_row, 1, "end line") {
            Ok(n) => n,
            Err(error) => {
                return Err(error);
            },
        };
        let end_column: u32 = match to_u32(end_column, 0, "end column") {
            Ok(n) => n,
            Err(error) => {
                return Err(error);
            },
        };
        Ok(SourceRange { start_line, start_column, end_line, end_column })
    }
}

/// Upper bound on the prefix parsed when collecting one file's imports.
///
/// The prefix is normally chosen from the file's own contents, but a file whose
/// last `import` token sits at its very end would otherwise be parsed whole. A
/// file cut by this bound reports it, so an edge is never quietly missing.
pub const MAX_IMPORT_SCAN_BYTES: usize = 64 * 1024;

/// Bytes kept after the last import-like token in a file.
///
/// The specifier of an import statement follows the last `import` or `from`
/// token in it, so a margin past that token reads the statement whole.
pub const IMPORT_SCAN_MARGIN: usize = 512;

/// What one file imports, and whether the whole file was examined.
#[derive(Debug, PartialEq, Eq)]
pub struct ImportScan {
    /// Module specifiers exactly as written, before any resolution, each with
    /// the earliest 1-based line it is written on.
    pub specifiers: TextMap<u32>,
    /// The names this file binds from those specifiers, keyed by the local
    /// name the file uses.
    pub bindings: TextMap<ImportBinding>,
    /// The file was longer than the scan limit and was not read whole.
    pub truncated: bool,
}

/// A scan by what its maps hold.
#[verifier::ext_equal]
pub struct ScanView {
    pub specifiers: Map<Seq<char>, u32>,
    pub bindings: Map<Seq<char>, BindingView>,
    pub truncated: bool,
}

impl View for ImportScan {
    type V = ScanView;

    open spec fn view(&self) -> ScanView {
        ScanView { specifiers: self.specifiers@, bindings: binding_map(self.bindings@), truncated: self.truncated }
    }
}

/// The last place at or before `start` where a needle stands, or 0.
pub open spec fn last_place(haystack: Seq<u8>, needle: Seq<u8>, start: int) -> int
    decreases start,
{
    if start <= 0 {
        0
    } else if needle.is_prefix_of(haystack.skip(start)) {
        start
    } else {
        last_place(haystack, needle, start - 1)
    }
}

/// The offset of the last occurrence of a needle, or 0 when it does not occur.
pub open spec fn last_occurrence_of(haystack: Seq<u8>, needle: Seq<u8>) -> int {
    if needle.len() == 0 || haystack.len() < needle.len() {
        0
    } else {
        last_place(haystack, needle, haystack.len() - needle.len())
    }
}

fn last_occurrence(haystack: &[u8], needle: &[u8]) -> (r: usize)
    ensures
        r == last_occurrence_of(haystack@, needle@),
{
    if needle.len() == 0 || haystack.len() < needle.len() {
        return 0;
    }
    let mut start: usize = haystack.len() - needle.len();
    while start > 0
        invariant
            0 < needle.len() <= haystack.len(),
            start <= haystack.len() - needle.len(),
            last_occurrence_of(haystack@, needle@) == last_place(haystack@, needle@, start as int),
        decreases start,
    {
        let mut i: usize = 0;
        while i < needle.len() && haystack[start + i] == needle[i]
            invariant
                i <= needle.len(),
                start + needle.len() <= haystack.len(),
                forall|k: int| 0 <= k < i ==> haystack@[start + k] == needle@[k],
            decreases needle.len() - i,
        {
            i = i + 1;
        }
        if i == needle.len() {
            assert(needle@ =~= haystack@.skip(start as int).subrange(0, needle@.len() as int));
            return start;
        }
        proof {
            if needle@.is_prefix_of(haystack@.skip(start as int)) {
                assert(haystack@.skip(start as int).subrange(0, needle@.len() as int)[i as int] == needle@[i as int]);
                assert(false);
            }
        }
        start = start - 1;
    }
    0
}

/// How much of a file is parsed to see every import it declares.
pub open spec fn import_prefix(source: Seq<u8>) -> int {
    let a = last_occurrence_of(source, seq![105u8, 109, 112, 111, 114, 116]);
    let b = last_occurrence_of(source, seq![102u8, 114, 111, 109]);
    (if a > b {
        a
    } else {
        b
    }) + IMPORT_SCAN_MARGIN
}

/// How much of a file must be parsed to see every import it declares.
fn import_prefix_len(source: &[u8]) -> (r: usize)
    ensures
        r == if import_prefix(source@) > usize::MAX {
            usize::MAX as int
        } else {
            import_prefix(source@)
        },
{
    let import: [u8; 6] = [105, 109, 112, 111, 114, 116];
    let from: [u8; 4] = [102, 114, 111, 109];
    assert(import@ =~= seq![105u8, 109, 112, 111, 114, 116]);
    assert(from@ =~= seq![102u8, 114, 111, 109]);
    let a: usize = last_occurrence(source, &import);
    let b: usize = last_occurrence(source, &from);
    let anchor: usize = if a > b {
        a
    } else {
        b
    };
    if anchor > usize::MAX - IMPORT_SCAN_MARGIN {
        usize::MAX
    } else {
        anchor + IMPORT_SCAN_MARGIN
    }
}

/// Whether a position does not stand inside a character.
pub open spec fn starts_character(source: Seq<u8>, index: int) -> bool {
    index >= source.len() || !(0x80 <= source[index] < 0xc0)
}

/// The last position at or before `end` that does not stand inside a character.
pub open spec fn character_start(source: Seq<u8>, end: int) -> int
    decreases end,
{
    if end <= 0 || starts_character(source, end) {
        end
    } else {
        character_start(source, end - 1)
    }
}

/// The part of a file that is parsed for its imports.
pub open spec fn import_head(source: Seq<u8>) -> Seq<u8> {
    let wanted = import_prefix(source);
    let bounded = if wanted < MAX_IMPORT_SCAN_BYTES {
        wanted
    } else {
        MAX_IMPORT_SCAN_BYTES as int
    };
    let end = if bounded < source.len() {
        bounded
    } else {
        source.len() as int
    };
    source.take(character_start(source, end))
}

/// What a source imports: nothing where it is no text, and else what its
/// syntax tree says.
pub open spec fn imported_facts(language: Language, source: Seq<u8>) -> Result<FactsView, ErrorView> {
    if !vstd::utf8::valid_utf8(source) {
        Ok(FactsView::empty())
    } else {
        match syntax_tree(language, vstd::utf8::decode_utf8(source)) {
            None => Err(ErrorView::Language("tree-sitter returned no tree"@)),
            Some(nodes) => facts_from(FactsView::empty(), nodes, 0, vstd::utf8::decode_utf8(source)),
        }
    }
}

/// The bindings that name a module.
pub open spec fn kept_bindings(bindings: Map<Seq<char>, BindingView>) -> Map<Seq<char>, BindingView> {
    Map::new(
        |k: Seq<char>| bindings.contains_key(k) && bindings[k].specifier.len() > 0,
        |k: Seq<char>| bindings[k],
    )
}

/// What a scan reports of the facts of a file.
pub open spec fn scan_of(facts: FactsView, truncated: bool) -> ScanView {
    ScanView {
        specifiers: facts.specifiers.remove(Seq::empty()),
        bindings: kept_bindings(facts.bindings),
        truncated,
    }
}

/// What a scan of a file reports.
pub open spec fn scanned(path: Seq<char>, source: Seq<u8>) -> Result<ScanView, ErrorView> {
    match language_of(path) {
        None => Ok(scan_of(FactsView::empty(), false)),
        Some(language) => match imported_facts(language, import_head(source)) {
            Err(error) => Err(error),
            Ok(facts) => Ok(scan_of(facts, import_prefix(source) > MAX_IMPORT_SCAN_BYTES && source.len() > MAX_IMPORT_SCAN_BYTES)),
        },
    }
}

/// Turn the facts of a file into what a scan reports.
pub fn finish_scan(facts: ImportFacts, truncated: bool) -> (r: ImportScan)
    ensures
        r@ == scan_of(facts@, truncated),
{
    let ghost given = facts@;
    let ImportFacts { specifiers, bindings } = facts;
    let mut specifiers = specifiers;
    let _ = specifiers.remove("");
    proof {
        reveal_strlit("");
        assert(""@ =~= Seq::<char>::empty());
    }
    let mut kept: TextMap<ImportBinding> = TextMap::new();
    let n: usize = bindings.len();
    let ghost names = bindings.keys();
    let mut i: usize = 0;
    while i < n
        invariant
            n == names.len(),
            names == bindings.keys(),
            bindings.ordered(),
            i <= n,
            forall|k: Seq<char>| #[trigger]
                kept@.contains_key(k) <==> names.take(i as int).contains(k) && bindings@[k].specifier@.len() > 0,
            forall|k: Seq<char>| #[trigger] kept@.contains_key(k) ==> kept@[k]@ == bindings@[k]@,
        decreases n - i,
    {
        let binding = bindings.value_at(i);
        let ghost held = kept@;
        let ghost name = names[i as int];
        if !binding.specifier.as_str().is_empty() {
            kept.insert(bindings.key_at(i).to_owned(), binding.clone());
        }
        proof {
            assert(names.take(i + 1) =~= names.take(i as int).push(name));
            assert forall|k: Seq<char>| #[trigger]
                kept@.contains_key(k) <==> names.take(i + 1).contains(k) && bindings@[k].specifier@.len() > 0 by {
                let short = names.take(i as int);
                let long = short.push(name);
                if short.contains(k) {
                    let m = choose|m: int| 0 <= m < short.len() && short[m] == k;
                    assert(long[m] == k);
                }
                assert(long[i as int] == name);
                assert(held.contains_key(k) <==> short.contains(k) && bindings@[k].specifier@.len() > 0);
                if long.contains(k) {
                    let m = choose|m: int| 0 <= m < long.len() && long[m] == k;
                    if m < i {
                        assert(short[m] == k);
                    }
                }
            }
        }
        i = i + 1;
    }
    let r = ImportScan { specifiers, bindings: kept, truncated };
    proof {
        assert(names.take(n as int) =~= names);
        assert(r@.bindings =~= kept_bindings(given.bindings));
    }
    r
}

/// A reusable scanner for the imports of many files.
pub struct ImportScanner {
    pub typescript: TypeScriptAnalyzer,
    pub tsx: TypeScriptAnalyzer,
}

impl TypeScriptAnalyzer {
    /// Read what a source imports.
    pub fn scan_imports(&self, source: &[u8]) -> (r: Result<ImportFacts, DiffScopeError>)
        ensures
            match r {
                Ok(facts) => imported_facts(self.language, source@) == Ok::<FactsView, ErrorView>(facts@),
                Err(error) => imported_facts(self.language, source@) == Err::<FactsView, ErrorView>(error@),
            },
    {
        let text = match crate::text::decode(source) {
            Ok(text) => text,
            Err(_) => {
                return Ok(ImportFacts::new());
            },
        };
        match parse_source(self.language, text.as_str()) {
            None => Err(DiffScopeError::Language("tree-sitter returned no tree".to_owned())),
            Some(nodes) => read_imports(&nodes, text.as_str()),
        }
    }
}

impl ImportScanner {
    /// Whether each analyzer reads the language it is for.
    pub open spec fn ready(self) -> bool {
        self.typescript.language == Language::TypeScript && self.tsx.language == Language::Tsx
    }

    /// Load the analyzers an import scan needs; fails when a grammar cannot be
    /// loaded.
    pub fn new() -> (r: Result<Self, DiffScopeError>)
        ensures
            match r {
                Ok(scanner) => scanner.ready() && grammar_fault(Language::TypeScript) is None && grammar_fault(Language::Tsx) is None,
                Err(error) => {
                    let fault = match grammar_fault(Language::TypeScript) {
                        Some(fault) => Some(fault),
                        None => grammar_fault(Language::Tsx),
                    };
                    fault is Some && error@ == ErrorView::Language("load TypeScript grammar: "@ + fault->0)
                },
            },
    {
        let typescript = match TypeScriptAnalyzer::new(Language::TypeScript) {
            Ok(analyzer) => analyzer,
            Err(error) => {
                return Err(error);
            },
        };
        match TypeScriptAnalyzer::new(Language::Tsx) {
            Ok(tsx) => Ok(ImportScanner { typescript, tsx }),
            Err(error) => Err(error),
        }
    }

    /// Collect the module specifiers one source file imports or re-exports,
    /// and the names it binds from them.
    ///
    /// Only the file's leading region is parsed: a scan covers every file of a
    /// revision. Fails when no syntax tree is produced.
    pub fn scan(&self, path: &str, source: &[u8]) -> (r: Result<ImportScan, DiffScopeError>)
        requires
            self.ready(),
        ensures
            match r {
                Ok(scan) => scanned(path@, source@) == Ok::<ScanView, ErrorView>(scan@),
                Err(error) => scanned(path@, source@) == Err::<ScanView, ErrorView>(error@),
            },
    {
        let language = match detect_language(path) {
            None => {
                return Ok(finish_scan(ImportFacts::new(), false));
            },
            Some(language) => language,
        };
        let wanted: usize = import_prefix_len(source);
        let truncated = wanted > MAX_IMPORT_SCAN_BYTES && source.len() > MAX_IMPORT_SCAN_BYTES;
        let bounded: usize = if wanted < MAX_IMPORT_SCAN_BYTES {
            wanted
        } else {
            MAX_IMPORT_SCAN_BYTES
        };
        let mut end: usize = if bounded < source.len() {
            bounded
        } else {
            source.len()
        };
        let ghost start = end as int;
        while end > 0 && end < source.len() && 0x80 <= source[end] && source[end] < 0xc0
            invariant
                end <= source.len(),
                character_start(source@, end as int) == character_start(source@, start),
            decreases end,
        {
            end = end - 1;
        }
        let head = vstd::slice::slice_subrange(source, 0, end);
        assert(head@ =~= import_head(source@));
        let analyzer = match language {
            Language::TypeScript => &self.typescript,
            Language::Tsx => &self.tsx,
        };
        match analyzer.scan_imports(head) {
            Ok(facts) => Ok(finish_scan(facts, truncated)),
            Err(error) => Err(error),
        }
    }
}

} // verus!

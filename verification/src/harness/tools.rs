//! The questions offered as tools, and how a call names one.

use vstd::prelude::*;

use crate::harness::jsonl::{method_named, Method};
use crate::text::{interposed, join3, join_all, same_text, texts};

verus! {

/// One argument of a tool.
#[derive(Debug, Clone, Copy, PartialEq, Eq, Structural)]
pub enum Argument {
    Repository,
    Base,
    Target,
    File,
    RootFile,
    RootFunction,
    Direction,
    Relations,
    Depth,
    View,
    MaxNodes,
    MaxEdges,
    Render,
    FunctionId,
    Status,
    Classification,
    MinimumRisk,
    MinComplexityDelta,
    IncludeUnchanged,
    Limit,
    Cursor,
}

/// The name of an argument. The root of a graph is named as the file or
/// function that it is.
pub open spec fn argument_word(argument: Argument) -> Seq<char> {
    match argument {
        Argument::Repository => "repository"@,
        Argument::Base => "base"@,
        Argument::Target => "target"@,
        Argument::File => "file"@,
        Argument::RootFile => "file"@,
        Argument::RootFunction => "function_id"@,
        Argument::Direction => "direction"@,
        Argument::Relations => "relations"@,
        Argument::Depth => "depth"@,
        Argument::View => "view"@,
        Argument::MaxNodes => "max_nodes"@,
        Argument::MaxEdges => "max_edges"@,
        Argument::Render => "render"@,
        Argument::FunctionId => "function_id"@,
        Argument::Status => "status"@,
        Argument::Classification => "classification"@,
        Argument::MinimumRisk => "minimum_risk"@,
        Argument::MinComplexityDelta => "min_complexity_delta"@,
        Argument::IncludeUnchanged => "include_unchanged"@,
        Argument::Limit => "limit"@,
        Argument::Cursor => "cursor"@,
    }
}

impl Argument {
    #[must_use]
    pub fn name(self) -> (r: &'static str)
        ensures
            r@ == argument_word(self),
    {
        match self {
            Argument::Repository => "repository",
            Argument::Base => "base",
            Argument::Target => "target",
            Argument::File => "file",
            Argument::RootFile => "file",
            Argument::RootFunction => "function_id",
            Argument::Direction => "direction",
            Argument::Relations => "relations",
            Argument::Depth => "depth",
            Argument::View => "view",
            Argument::MaxNodes => "max_nodes",
            Argument::MaxEdges => "max_edges",
            Argument::Render => "render",
            Argument::FunctionId => "function_id",
            Argument::Status => "status",
            Argument::Classification => "classification",
            Argument::MinimumRisk => "minimum_risk",
            Argument::MinComplexityDelta => "min_complexity_delta",
            Argument::IncludeUnchanged => "include_unchanged",
            Argument::Limit => "limit",
            Argument::Cursor => "cursor",
        }
    }
}

/// One tool: the question it asks, and how that question is described.
#[derive(Debug)]
pub struct ToolSpec {
    pub method: Method,
    pub name: &'static str,
    pub description: &'static str,
    /// What every tool requires comes first: the comparison it asks about.
    pub required: Vec<Argument>,
    pub optional: Vec<Argument>,
}

/// The questions offered as tools, in the order they are worth asking.
pub open spec fn offered_methods() -> Seq<Method> {
    seq![
        Method::ChangeSummary,
        Method::GetImpactGraph,
        Method::ListChangedFiles,
        Method::ListChangedFunctions,
        Method::GetFunctionChange,
        Method::GetAnalysisDiagnostics,
    ]
}

/// The name that a question is offered under.
pub open spec fn tool_word(method: Method) -> Seq<char> {
    match method {
        Method::Analyze => "analyze"@,
        Method::ChangeSummary => "get_change_summary"@,
        Method::GetImpactGraph => "get_impact_graph"@,
        Method::ListChangedFiles => "list_changed_files"@,
        Method::ListChangedFunctions => "list_changed_functions"@,
        Method::GetFunctionChange => "get_function_change"@,
        Method::GetAnalysisDiagnostics => "get_analysis_diagnostics"@,
    }
}

/// What a question answers, as a tool.
pub open spec fn tool_text(method: Method) -> Seq<char> {
    match method {
        Method::Analyze => ""@,
        Method::ChangeSummary => "Summarize one comparison: what changed, where, and which functions are worth reviewing first."@,
        Method::GetImpactGraph => "Show the shape of what one comparison reaches: the modules importing a changed file, the tests related to it, and — rooted at a function — the functions it calls in its own file and the ones that call it there, with which of those relationships the change added or removed."@,
        Method::ListChangedFiles => "List the files one comparison changed, ranked, one page at a time."@,
        Method::ListChangedFunctions => "List the functions one comparison changed, ranked, one page at a time."@,
        Method::GetFunctionChange => "Describe one changed function in full, by the `function_id` an earlier listing reported."@,
        Method::GetAnalysisDiagnostics => "Report what one comparison could not analyze, and where."@,
    }
}

fn tool_description(method: Method) -> (r: &'static str)
    ensures
        r@ == tool_text(method),
{
    match method {
        Method::Analyze => "",
        Method::ChangeSummary => "Summarize one comparison: what changed, where, and which functions are worth reviewing first.",
        Method::GetImpactGraph => "Show the shape of what one comparison reaches: the modules importing a changed file, the tests related to it, and — rooted at a function — the functions it calls in its own file and the ones that call it there, with which of those relationships the change added or removed.",
        Method::ListChangedFiles => "List the files one comparison changed, ranked, one page at a time.",
        Method::ListChangedFunctions => "List the functions one comparison changed, ranked, one page at a time.",
        Method::GetFunctionChange => "Describe one changed function in full, by the `function_id` an earlier listing reported.",
        Method::GetAnalysisDiagnostics => "Report what one comparison could not analyze, and where.",
    }
}

/// What a tool cannot be asked without: a comparison, and for one function the
/// function.
pub open spec fn required_arguments(method: Method) -> Seq<Argument> {
    let comparison = seq![Argument::Repository, Argument::Base, Argument::Target];
    if method == Method::GetFunctionChange {
        comparison.push(Argument::FunctionId)
    } else {
        comparison
    }
}

/// What a tool can be asked with.
pub open spec fn optional_arguments(method: Method) -> Seq<Argument> {
    match method {
        Method::GetImpactGraph => seq![
            Argument::RootFile,
            Argument::RootFunction,
            Argument::Direction,
            Argument::Relations,
            Argument::Depth,
            Argument::View,
            Argument::MaxNodes,
            Argument::MaxEdges,
            Argument::Render,
        ],
        Method::ListChangedFiles => seq![Argument::Classification, Argument::MinimumRisk, Argument::Limit, Argument::Cursor],
        Method::ListChangedFunctions => seq![
            Argument::File,
            Argument::Status,
            Argument::Classification,
            Argument::MinimumRisk,
            Argument::MinComplexityDelta,
            Argument::IncludeUnchanged,
            Argument::Limit,
            Argument::Cursor,
        ],
        Method::GetAnalysisDiagnostics => seq![Argument::File],
        _ => Seq::empty(),
    }
}

fn tool_name(method: Method) -> (r: &'static str)
    ensures
        r@ == tool_word(method),
{
    match method {
        Method::Analyze => "analyze",
        Method::ChangeSummary => "get_change_summary",
        Method::GetImpactGraph => "get_impact_graph",
        Method::ListChangedFiles => "list_changed_files",
        Method::ListChangedFunctions => "list_changed_functions",
        Method::GetFunctionChange => "get_function_change",
        Method::GetAnalysisDiagnostics => "get_analysis_diagnostics",
    }
}

/// Describe one tool: what it answers, and the arguments it accepts.
fn describe(method: Method) -> (r: ToolSpec)
    ensures
        r.method == method,
        r.name@ == tool_word(method),
        r.description@ == tool_text(method),
        r.required@ == required_arguments(method),
        r.optional@ == optional_arguments(method),
{
    let mut required: Vec<Argument> = vec![Argument::Repository, Argument::Base, Argument::Target];
    assert(required@ =~= seq![Argument::Repository, Argument::Base, Argument::Target]);
    if method == Method::GetFunctionChange {
        required.push(Argument::FunctionId);
    }
    let optional: Vec<Argument> = match method {
        Method::GetImpactGraph => vec![
            Argument::RootFile,
            Argument::RootFunction,
            Argument::Direction,
            Argument::Relations,
            Argument::Depth,
            Argument::View,
            Argument::MaxNodes,
            Argument::MaxEdges,
            Argument::Render,
        ],
        Method::ListChangedFiles => vec![Argument::Classification, Argument::MinimumRisk, Argument::Limit, Argument::Cursor],
        Method::ListChangedFunctions => vec![
            Argument::File,
            Argument::Status,
            Argument::Classification,
            Argument::MinimumRisk,
            Argument::MinComplexityDelta,
            Argument::IncludeUnchanged,
            Argument::Limit,
            Argument::Cursor,
        ],
        Method::GetAnalysisDiagnostics => vec![Argument::File],
        _ => Vec::new(),
    };
    assert(optional@ =~= optional_arguments(method));
    ToolSpec { method, name: tool_name(method), description: tool_description(method), required, optional }
}

/// Whether tools are described as they are offered.
pub open spec fn describes_offered(tools: Seq<ToolSpec>) -> bool {
    &&& tools.len() == offered_methods().len()
    &&& forall|i: int| #![trigger tools[i]]
        0 <= i < tools.len() ==> tools[i].method == offered_methods()[i] && tools[i].name@ == tool_word(tools[i].method) && tools[i].description@
            == tool_text(tools[i].method) && tools[i].required@
            == required_arguments(tools[i].method) && tools[i].optional@ == optional_arguments(tools[i].method)
}

/// The six questions this server answers, in the order they are worth asking.
#[must_use]
pub fn tool_specs() -> (r: Vec<ToolSpec>)
    ensures
        describes_offered(r@),
{
    vec![
        describe(Method::ChangeSummary),
        describe(Method::GetImpactGraph),
        describe(Method::ListChangedFiles),
        describe(Method::ListChangedFunctions),
        describe(Method::GetFunctionChange),
        describe(Method::GetAnalysisDiagnostics),
    ]
}

/// The names of the tools.
pub open spec fn tool_words() -> Seq<Seq<char>> {
    offered_methods().map_values(|m: Method| tool_word(m))
}

/// The question that a tool name asks, from a place in the offered order on.
pub open spec fn offered_under(name: Seq<char>, from: int) -> Option<Method>
    decreases offered_methods().len() - from,
{
    if from < 0 || from >= offered_methods().len() {
        None
    } else if tool_word(offered_methods()[from]) == name {
        Some(offered_methods()[from])
    } else {
        offered_under(name, from + 1)
    }
}

/// The question a tool name asks, or a sentence naming the tools that do exist,
/// so a caller that guessed can correct itself in one step.
pub fn find_tool(name: &str) -> (r: Result<Method, String>)
    ensures
        match offered_under(name@, 0) {
            Some(method) => r is Ok && r->Ok_0 == method,
            None => r is Err && r->Err_0@ == "unknown tool `"@ + name@ + "`; this server exposes "@ + interposed(tool_words(), ", "@),
        },
{
    let tools = tool_specs();
    let mut known: Vec<String> = Vec::new();
    let mut i: usize = 0;
    assert(texts(known@) =~= tool_words().take(0));
    while i < tools.len()
        invariant
            i <= tools.len(),
            describes_offered(tools@),
            texts(known@) == tool_words().take(i as int),
            offered_under(name@, i as int) == offered_under(name@, 0),
        decreases tools.len() - i,
    {
        let tool = &tools[i];
        assert(tool.method == offered_methods()[i as int]);
        if same_text(tool.name, name) {
            return Ok(tool.method);
        }
        let ghost so_far = texts(known@);
        known.push(tool.name.to_owned());
        proof {
            assert(tool_words()[i as int] == tool.name@);
            assert(texts(known@) =~= so_far.push(tool.name@));
            assert(tool_words().take(i + 1) =~= so_far.push(tool.name@));
        }
        i = i + 1;
    }
    assert(tool_words().take(i as int) =~= tool_words());
    let mut message = join3("unknown tool `", name, "`; this server exposes ");
    message.append(join_all(&known, ", ").as_str());
    Err(message)
}

/// What a call gave for an argument.
pub enum Given {
    Missing,
    Text(String),
    /// Something that is no text, as it is written.
    Other(String),
}

/// The text that a call gave for a required argument, or what is wrong with it.
pub fn required_text(field: &str, given: Given) -> (r: Result<String, String>)
    ensures
        match given {
            Given::Missing => r is Err && r->Err_0@ == "`"@ + field@ + "` is required"@,
            Given::Text(text) => if text@.len() == 0 {
                r is Err && r->Err_0@ == "`"@ + field@ + "` must not be empty"@
            } else {
                r is Ok && r->Ok_0@ == text@
            },
            Given::Other(shown) => r is Err && r->Err_0@ == "`"@ + field@ + "` must be a string; received "@ + shown@,
        },
{
    match given {
        Given::Missing => Err(join3("`", field, "` is required")),
        Given::Text(text) => if text.as_str().is_empty() {
            Err(join3("`", field, "` must not be empty"))
        } else {
            Ok(text)
        },
        Given::Other(shown) => {
            let mut message = join3("`", field, "` must be a string; received ");
            message.append(shown.as_str());
            Err(message)
        },
    }
}

/// A question that both transports answer has one name: the tool and the line
/// that ask it are called alike.
pub proof fn lemma_one_name_per_question(method: Method)
    requires
        method != Method::GetImpactGraph,
    ensures
        method_named(Some(tool_word(method))) == Some(method),
{
    reveal_strlit("analyze");
    reveal_strlit("get_change_summary");
    reveal_strlit("list_changed_files");
    reveal_strlit("list_changed_functions");
    reveal_strlit("get_function_change");
    reveal_strlit("get_analysis_diagnostics");
    assert("analyze"@[0] == 'a' && "get_change_summary"@[4] == 'c' && "get_function_change"@[4] == 'f' && "get_analysis_diagnostics"@[4] == 'a');
    assert("list_changed_files"@.len() == 18 && "list_changed_functions"@.len() == 22);
    assert("get_change_summary"@[0] == 'g' && "get_function_change"@[0] == 'g' && "get_analysis_diagnostics"@[0] == 'g' && "list_changed_files"@[0] == 'l'
        && "list_changed_functions"@[0] == 'l');
}

/// No tool answers without being told what to compare.
pub proof fn lemma_comparison_is_required(method: Method)
    ensures
        required_arguments(method).contains(Argument::Repository),
        required_arguments(method).contains(Argument::Base),
        required_arguments(method).contains(Argument::Target),
{
    let required = required_arguments(method);
    assert(required[0] == Argument::Repository && required[1] == Argument::Base && required[2] == Argument::Target);
}

} // verus!

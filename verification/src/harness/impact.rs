//! What a comparison reaches, asked for by name.

use vstd::prelude::*;

use crate::graph::assembly::Revisions;
use crate::graph::{applied_depth, bounded, canonical_depth, direction_named, view_named, Direction, Limits};
use crate::graph::{DEFAULT_MAX_EDGES, DEFAULT_MAX_NODES, MAX_MAX_EDGES, MAX_MAX_NODES, MIN_MAX_EDGES, MIN_MAX_NODES};
use crate::harness::cursor::{invalid, invalid_params, FaultFacts, ProjectionError};
use crate::harness::jsonl::{enumerated, parse_enum};
use crate::query::graph::{
    answered, named_root, project, requested_graph, validated, GraphAnswer, GraphRequest, RequestFacts, Requested, RequestedFacts,
};
use crate::result::{AnalysisResult, ResultView};
use crate::text::{text_option, texts};

verus! {

/// The parameters of an impact-graph question, as a transport decoded them.
#[derive(Debug, PartialEq, Eq)]
pub struct GraphParams {
    pub file: Option<String>,
    pub function_id: Option<String>,
    pub direction: Option<String>,
    pub relations: Vec<String>,
    pub depth: Option<u32>,
    pub view: Option<String>,
    pub max_nodes: Option<usize>,
    pub max_edges: Option<usize>,
    pub render: Vec<String>,
}

/// Parameters by their texts.
#[verifier::ext_equal]
pub struct GraphParamFacts {
    pub file: Option<Seq<char>>,
    pub function_id: Option<Seq<char>>,
    pub direction: Option<Seq<char>>,
    pub relations: Seq<Seq<char>>,
    pub depth: Option<u32>,
    pub view: Option<Seq<char>>,
    pub max_nodes: Option<usize>,
    pub max_edges: Option<usize>,
    pub render: Seq<Seq<char>>,
}

impl View for GraphParams {
    type V = GraphParamFacts;

    open spec fn view(&self) -> GraphParamFacts {
        GraphParamFacts {
            file: text_option(self.file),
            function_id: text_option(self.function_id),
            direction: text_option(self.direction),
            relations: texts(self.relations@),
            depth: self.depth,
            view: text_option(self.view),
            max_nodes: self.max_nodes,
            max_edges: self.max_edges,
            render: texts(self.render@),
        }
    }
}

/// The direction that a parameter names.
pub open spec fn direction_of(value: Option<Seq<char>>) -> Result<Option<Direction>, FaultFacts> {
    enumerated(value, |s: Seq<char>| direction_named(s), "direction"@, "upstream, downstream, both"@)
}

/// The view that a parameter names.
pub open spec fn view_of(value: Option<Seq<char>>) -> Result<Option<crate::graph::View>, FaultFacts> {
    enumerated(value, |s: Seq<char>| view_named(s), "view"@, "delta, base, target"@)
}

/// The limits that are applied for requested ones.
pub open spec fn applied_limits(max_nodes: Option<usize>, max_edges: Option<usize>) -> Limits {
    Limits {
        max_nodes: bounded(max_nodes, DEFAULT_MAX_NODES, MIN_MAX_NODES, MAX_MAX_NODES) as usize,
        max_edges: bounded(max_edges, DEFAULT_MAX_EDGES, MIN_MAX_EDGES, MAX_MAX_EDGES) as usize,
    }
}

/// The request that parameters make, or why they are refused: of several
/// faults, that of the direction comes first, then that of the view.
pub open spec fn request_of(result: ResultView, params: GraphParamFacts) -> Result<RequestFacts, FaultFacts> {
    match direction_of(params.direction) {
        Err(fault) => Err(fault),
        Ok(direction) => match view_of(params.view) {
            Err(fault) => Err(fault),
            Ok(view) => match validated(
                result,
                RequestedFacts {
                    file: params.file,
                    function_id: params.function_id,
                    direction,
                    relations: params.relations,
                    depth: applied_depth(params.depth) as u32,
                    view,
                    limits: applied_limits(params.max_nodes, params.max_edges),
                    render: params.render,
                },
            ) {
                Err(message) => Err(invalid(message)),
                Ok(request) => Ok(request),
            },
        },
    }
}

fn parse_direction(value: &Option<String>) -> (r: Result<Option<Direction>, ProjectionError>)
    ensures
        match r {
            Ok(found) => direction_of(text_option(*value)) == Ok::<Option<Direction>, FaultFacts>(found),
            Err(error) => direction_of(text_option(*value)) == Err::<Option<Direction>, FaultFacts>(error@),
        },
{
    let parse = |s: &str| -> (out: Option<Direction>)
        ensures
            out == direction_named(s@),
    {
        Direction::parse(s)
    };
    parse_enum(value, parse, "direction", "upstream, downstream, both", Ghost(|s: Seq<char>| direction_named(s)))
}

fn parse_view(value: &Option<String>) -> (r: Result<Option<crate::graph::View>, ProjectionError>)
    ensures
        match r {
            Ok(found) => view_of(text_option(*value)) == Ok::<Option<crate::graph::View>, FaultFacts>(found),
            Err(error) => view_of(text_option(*value)) == Err::<Option<crate::graph::View>, FaultFacts>(error@),
        },
{
    let parse = |s: &str| -> (out: Option<crate::graph::View>)
        ensures
            out == view_named(s@),
    {
        crate::graph::View::parse(s)
    };
    parse_enum(value, parse, "view", "delta, base, target", Ghost(|s: Seq<char>| view_named(s)))
}

fn as_text(value: &Option<String>) -> (r: Option<&str>)
    ensures
        crate::query::files::borrowed_text(r) == text_option(*value),
{
    match value {
        Some(value) => Some(value.as_str()),
        None => None,
    }
}

/// Validate the parameters of an impact-graph question against the analysis it
/// asks about.
pub fn graph_request(result: &AnalysisResult, params: &GraphParams) -> (r: Result<GraphRequest, ProjectionError>)
    ensures
        match r {
            Ok(request) => request_of(result@, params@) == Ok::<RequestFacts, FaultFacts>(request@),
            Err(error) => request_of(result@, params@) == Err::<RequestFacts, FaultFacts>(error@),
        },
{
    let direction = match parse_direction(&params.direction) {
        Ok(direction) => direction,
        Err(error) => {
            return Err(error);
        },
    };
    let view = match parse_view(&params.view) {
        Ok(view) => view,
        Err(error) => {
            return Err(error);
        },
    };
    let requested = Requested {
        file: as_text(&params.file),
        function_id: as_text(&params.function_id),
        direction,
        relations: &params.relations,
        depth: canonical_depth(params.depth),
        view,
        limits: Limits::canonical(params.max_nodes, params.max_edges),
        render: &params.render,
    };
    match GraphRequest::validate(result, &requested) {
        Ok(request) => Ok(request),
        Err(error) => Err(invalid_params(error.message)),
    }
}

/// What a comparison reaches, and the request it was asked with; or why the
/// question is refused.
pub fn impact_graph(result: &AnalysisResult, revisions: &Revisions, params: &GraphParams) -> (r: Result<(GraphRequest, GraphAnswer), ProjectionError>)
    ensures
        match request_of(result@, params@) {
            Err(fault) => r is Err && r->Err_0@ == fault,
            Ok(request) => {
                &&& r is Ok
                &&& r->Ok_0.0@ == request
                &&& r->Ok_0.1@ == answered(requested_graph(result@, revisions@, request), request.render, named_root(result@.files, request))
            },
        },
{
    match graph_request(result, params) {
        Err(error) => Err(error),
        Ok(request) => {
            let answer = project(result, revisions, &request);
            Ok((request, answer))
        },
    }
}

} // verus!

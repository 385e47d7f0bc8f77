//! What a module imports and what it publishes, read off its syntax tree.

use vstd::prelude::*;

use crate::collections::{TextMap, TextSet};
use crate::languages::syntax::{
    are_parents, child, find_child, lemma_shallower, node_views, parent, parents_of, position, NodeView, SyntaxNode,
};
use crate::languages::typescript::{cleaned, cleaned_text, own_name};
use crate::languages::{fits_u32, to_u32, DefinitionView, FunctionDefinition, SourceRange};
use crate::text::{same_text, text_option};
use crate::{DiffScopeError, ErrorView};

verus! {

/// One name a module exports, and what stands behind it.
#[derive(Debug, PartialEq, Eq)]
pub struct ExportedSymbol {
    /// Name in the module the export reads from: the local name for
    /// `export { a as b }`, and the source name for
    /// `export { a as b } from "x"`, which is what the next hop looks up.
    pub local: String,
    /// Specifier this name is forwarded from, when it is a re-export.
    pub from: Option<String>,
    /// Where the function this name declares is written, when it declares one
    /// in this file.
    pub function: Option<SourceRange>,
    /// 1-based line the export is written on.
    pub line: u32,
}

/// An exported name by what its texts hold.
#[verifier::ext_equal]
pub struct SymbolView {
    pub local: Seq<char>,
    pub from: Option<Seq<char>>,
    pub function: Option<SourceRange>,
    pub line: u32,
}

impl View for ExportedSymbol {
    type V = SymbolView;

    open spec fn view(&self) -> SymbolView {
        SymbolView { local: self.local@, from: text_option(self.from), function: self.function, line: self.line }
    }
}

impl Clone for ExportedSymbol {
    fn clone(&self) -> (r: Self)
        ensures
            r@ == self@,
    {
        ExportedSymbol {
            local: self.local.clone(),
            from: crate::collections::copy_option(&self.from),
            function: self.function,
            line: self.line,
        }
    }
}

/// What one name an import statement binds refers to in the module it came
/// from.
#[derive(Debug, PartialEq, Eq)]
pub enum ImportedName {
    /// A named import, under the name the exporting module publishes.
    Named(String),
    /// The module's default export.
    Default,
    /// The module itself, bound as a namespace object.
    Namespace,
}

/// An imported name by what its text holds.
#[verifier::ext_equal]
pub enum ImportedView {
    Named(Seq<char>),
    Default,
    Namespace,
}

impl View for ImportedName {
    type V = ImportedView;

    open spec fn view(&self) -> ImportedView {
        match self {
            ImportedName::Named(name) => ImportedView::Named(name@),
            ImportedName::Default => ImportedView::Default,
            ImportedName::Namespace => ImportedView::Namespace,
        }
    }
}

impl Clone for ImportedName {
    fn clone(&self) -> (r: Self)
        ensures
            r@ == self@,
    {
        match self {
            ImportedName::Named(name) => ImportedName::Named(name.clone()),
            ImportedName::Default => ImportedName::Default,
            ImportedName::Namespace => ImportedName::Namespace,
        }
    }
}

/// One name a file imports, and where it came from.
///
/// The specifier is kept as written, because resolution needs the revision's
/// file set and its aliases, and neither belongs to a single file.
#[derive(Debug, PartialEq, Eq)]
pub struct ImportBinding {
    /// What the local name refers to in the module it came from.
    pub imported: ImportedName,
    /// Module specifier exactly as written, before any resolution.
    pub specifier: String,
    /// 1-based line the import statement's specifier sits on.
    pub line: u32,
}

/// A binding by what its texts hold.
#[verifier::ext_equal]
pub struct BindingView {
    pub imported: ImportedView,
    pub specifier: Seq<char>,
    pub line: u32,
}

impl View for ImportBinding {
    type V = BindingView;

    open spec fn view(&self) -> BindingView {
        BindingView { imported: self.imported@, specifier: self.specifier@, line: self.line }
    }
}

impl Clone for ImportBinding {
    fn clone(&self) -> (r: Self)
        ensures
            r@ == self@,
    {
        ImportBinding { imported: self.imported.clone(), specifier: self.specifier.clone(), line: self.line }
    }
}

/// Whether a position holds a statement of a kind that stands in the module
/// itself.
pub open spec fn is_statement(nodes: Seq<NodeView>, i: int, kind: Seq<char>) -> bool {
    0 <= i < nodes.len() && nodes[i].kind == kind && parent(nodes, i) == Some(0int)
}

/// The kind of the node that a position is in.
pub open spec fn parent_is(nodes: Seq<NodeView>, i: int, kind: Seq<char>) -> bool {
    match parent(nodes, i) {
        Some(p) => nodes[p].kind == kind,
        None => false,
    }
}

/// The export statement that a position is directly in.
pub open spec fn exporter(nodes: Seq<NodeView>, i: int) -> Option<int> {
    match parent(nodes, i) {
        Some(p) => if is_statement(nodes, p, "export_statement"@) {
            Some(p)
        } else {
            None
        },
        None => None,
    }
}

/// The export statement around the node that a position is in.
pub open spec fn outer_exporter(nodes: Seq<NodeView>, i: int) -> Option<int> {
    match parent(nodes, i) {
        Some(p) => exporter(nodes, p),
        None => None,
    }
}

/// The specifier of an import or export statement.
pub open spec fn specifier_of(nodes: Seq<NodeView>, i: int, source: Seq<char>) -> Option<Seq<char>> {
    cleaned(nodes, child(nodes, i, "source"@), source)
}

/// A name that an export publishes: the name, the name behind it, and the
/// statement that exports it.
#[verifier::ext_equal]
pub struct Published {
    pub name: Seq<char>,
    pub local: Seq<char>,
    pub statement: int,
    /// Whether the names behind it are not written here.
    pub whole: bool,
}

/// The name behind a default export.
pub open spec fn default_local(nodes: Seq<NodeView>, statement: int, source: Seq<char>) -> Seq<char> {
    let declared = match child(nodes, statement, "declaration"@) {
        Some(d) => own_name(nodes, d, source),
        None => None,
    };
    let value = match child(nodes, statement, "value"@) {
        Some(v) => if nodes[v].kind == "identifier"@ {
            cleaned(nodes, Some(v), source)
        } else {
            None
        },
        None => None,
    };
    match declared {
        Some(name) => name,
        None => match value {
            Some(name) => name,
            None => "default"@,
        },
    }
}

/// A name that stands for itself in an export statement.
pub open spec fn plainly(name: Option<Seq<char>>, statement: int) -> Option<Published> {
    match name {
        Some(name) => Some(Published { name, local: name, statement, whole: false }),
        None => None,
    }
}

/// What the node at a position publishes.
pub open spec fn published(nodes: Seq<NodeView>, i: int, source: Seq<char>) -> Option<Published> {
    let kind = nodes[i].kind;
    if kind == "export_specifier"@ {
        match outer_exporter(nodes, i) {
            Some(statement) => if parent_is(nodes, i, "export_clause"@) {
                match own_name(nodes, i, source) {
                    Some(local) => match cleaned(nodes, child(nodes, i, "alias"@), source) {
                        Some(name) => Some(Published { name, local, statement, whole: false }),
                        None => plainly(Some(local), statement),
                    },
                    None => None,
                }
            } else {
                None
            },
            None => None,
        }
    } else if kind == "variable_declarator"@ {
        match (parent(nodes, i), outer_exporter(nodes, i)) {
            (Some(list), Some(statement)) => match child(nodes, i, "name"@) {
                Some(n) => if nodes[list].field == Some("declaration"@) && nodes[n].kind == "identifier"@ {
                    plainly(cleaned(nodes, Some(n), source), statement)
                } else {
                    None
                },
                None => None,
            },
            _ => None,
        }
    } else if kind == "identifier"@ && parent_is(nodes, i, "namespace_export"@) {
        match (outer_exporter(nodes, i), cleaned(nodes, Some(i), source)) {
            (Some(statement), Some(name)) => Some(Published { name, local: "*"@, statement, whole: false }),
            _ => None,
        }
    } else {
        match exporter(nodes, i) {
            None => None,
            Some(statement) => if kind == "default"@ {
                Some(Published { name: "default"@, local: default_local(nodes, statement, source), statement, whole: false })
            } else if kind == "*"@ {
                Some(Published { name: "*"@, local: "*"@, statement, whole: true })
            } else if nodes[i].field == Some("declaration"@) && nodes[i - 1].kind != "default"@ {
                plainly(own_name(nodes, i, source), statement)
            } else {
                None
            },
        }
    }
}

/// The range of the first function with a qualified name.
pub open spec fn function_range(functions: Seq<DefinitionView>, name: Seq<char>) -> Option<SourceRange>
    decreases functions.len(),
{
    if functions.len() == 0 {
        None
    } else if functions[0].qualified_name == name {
        Some(functions[0].range)
    } else {
        function_range(functions.drop_first(), name)
    }
}

/// What a module publishes: every exported name, the names with what stands
/// behind them, and the modules it forwards from.
#[verifier::ext_equal]
pub struct SurfaceView {
    pub names: Set<Seq<char>>,
    pub symbols: Map<Seq<char>, SymbolView>,
    pub modules: Set<Seq<char>>,
}

impl SurfaceView {
    /// Nothing published.
    pub open spec fn empty() -> SurfaceView {
        SurfaceView { names: Set::empty(), symbols: Map::empty(), modules: Set::empty() }
    }

    /// One more node met.
    pub open spec fn after_node(self, nodes: Seq<NodeView>, i: int, source: Seq<char>, functions: Seq<DefinitionView>) -> Result<
        SurfaceView,
        ErrorView,
    > {
        let modules = if is_statement(nodes, i, "export_statement"@) && specifier_of(nodes, i, source) is Some {
            self.modules.insert(specifier_of(nodes, i, source)->0)
        } else {
            self.modules
        };
        match published(nodes, i, source) {
            None => Ok(SurfaceView { modules, ..self }),
            Some(found) => if found.whole {
                Ok(SurfaceView { names: self.names.insert(found.name), modules, ..self })
            } else {
                match fits_u32(nodes[i].start_row + 1, "export line"@) {
                    Err(error) => Err(error),
                    Ok(line) => {
                        let from = specifier_of(nodes, found.statement, source);
                        let function = if from is None {
                            function_range(functions, found.local)
                        } else {
                            None
                        };
                        Ok(
                            SurfaceView {
                                names: self.names.insert(found.name),
                                symbols: self.symbols.insert(found.name, SymbolView { local: found.local, from, function, line }),
                                modules,
                            },
                        )
                    },
                }
            },
        }
    }
}

/// What a module publishes once the nodes from `i` on have been met.
pub open spec fn surface_from(
    state: SurfaceView,
    nodes: Seq<NodeView>,
    i: int,
    source: Seq<char>,
    functions: Seq<DefinitionView>,
) -> Result<SurfaceView, ErrorView>
    decreases nodes.len() - i,
{
    if i < 0 || i >= nodes.len() {
        Ok(state)
    } else {
        match state.after_node(nodes, i, source, functions) {
            Err(error) => Err(error),
            Ok(next) => surface_from(next, nodes, i + 1, source, functions),
        }
    }
}

/// What a module publishes.
pub struct Surface {
    pub names: TextSet,
    pub symbols: TextMap<ExportedSymbol>,
    pub modules: TextSet,
}

/// Exported names by what they hold.
pub open spec fn symbol_map(symbols: Map<Seq<char>, ExportedSymbol>) -> Map<Seq<char>, SymbolView> {
    symbols.map_values(|s: ExportedSymbol| s@)
}

impl View for Surface {
    type V = SurfaceView;

    open spec fn view(&self) -> SurfaceView {
        SurfaceView { names: self.names@, symbols: symbol_map(self.symbols@), modules: self.modules@ }
    }
}

/// A list of nodes with their parents and the source they are read from.
struct Reader<'a> {
    nodes: &'a Vec<SyntaxNode>,
    parents: &'a Vec<Option<usize>>,
    source: &'a str,
}

/// A published name with the statement that publishes it.
struct Found {
    name: String,
    local: String,
    statement: usize,
    whole: bool,
}

spec fn found_view(found: Option<Found>) -> Option<Published> {
    match found {
        Some(f) => Some(Published { name: f.name@, local: f.local@, statement: f.statement as int, whole: f.whole }),
        None => None,
    }
}

impl<'a> Reader<'a> {
    spec fn views(&self) -> Seq<NodeView> {
        node_views(self.nodes@)
    }

    spec fn valid(&self) -> bool {
        are_parents(self.parents@, self.views())
    }

    fn kind_is(&self, i: usize, kind: &str) -> (r: bool)
        requires
            i < self.nodes.len(),
        ensures
            r == (self.views()[i as int].kind == kind@),
    {
        same_text(self.nodes[i].kind.as_str(), kind)
    }

    fn field_is(&self, i: usize, field: &str) -> (r: bool)
        requires
            i < self.nodes.len(),
        ensures
            r == (self.views()[i as int].field == Some(field@)),
    {
        assert(self.views()[i as int] == self.nodes@[i as int]@);
        match &self.nodes[i].field {
            Some(name) => same_text(name.as_str(), field),
            None => false,
        }
    }

    fn above(&self, i: usize) -> (r: Option<usize>)
        requires
            self.valid(),
            i < self.nodes.len(),
        ensures
            position(r) == parent(self.views(), i as int),
            r matches Some(p) ==> p < i,
    {
        proof {
            lemma_shallower(self.views(), i - 1, self.views()[i as int].depth);
        }
        self.parents[i]
    }

    fn statement_at(&self, i: usize, kind: &str) -> (r: bool)
        requires
            self.valid(),
            i < self.nodes.len(),
        ensures
            r == is_statement(self.views(), i as int, kind@),
    {
        let at_root = match self.above(i) {
            Some(p) => p == 0,
            None => false,
        };
        at_root && self.kind_is(i, kind)
    }

    fn in_kind(&self, i: usize, kind: &str) -> (r: bool)
        requires
            self.valid(),
            i < self.nodes.len(),
        ensures
            r == parent_is(self.views(), i as int, kind@),
    {
        match self.above(i) {
            Some(p) => self.kind_is(p, kind),
            None => false,
        }
    }

    fn exporter_of(&self, i: usize) -> (r: Option<usize>)
        requires
            self.valid(),
            i < self.nodes.len(),
        ensures
            position(r) == exporter(self.views(), i as int),
            r matches Some(p) ==> p < i,
    {
        match self.above(i) {
            Some(p) => if self.statement_at(p, "export_statement") {
                Some(p)
            } else {
                None
            },
            None => None,
        }
    }

    fn outer_exporter_of(&self, i: usize) -> (r: Option<usize>)
        requires
            self.valid(),
            i < self.nodes.len(),
        ensures
            position(r) == outer_exporter(self.views(), i as int),
            r matches Some(p) ==> p < i,
    {
        match self.above(i) {
            Some(p) => self.exporter_of(p),
            None => None,
        }
    }

    fn text_under(&self, i: usize, field: &str) -> (r: Option<String>)
        requires
            self.valid(),
            i < self.nodes.len(),
        ensures
            text_option(r) == cleaned(self.views(), child(self.views(), i as int, field@), self.source@),
    {
        cleaned_text(self.nodes, find_child(self.nodes, self.parents, i, field), self.source)
    }

    fn local_of_default(&self, statement: usize) -> (r: String)
        requires
            self.valid(),
            statement < self.nodes.len(),
        ensures
            r@ == default_local(self.views(), statement as int, self.source@),
    {
        if let Some(d) = find_child(self.nodes, self.parents, statement, "declaration") {
            if let Some(name) = self.text_under(d, "name") {
                return name;
            }
        }
        if let Some(v) = find_child(self.nodes, self.parents, statement, "value") {
            if self.kind_is(v, "identifier") {
                if let Some(name) = cleaned_text(self.nodes, Some(v), self.source) {
                    return name;
                }
            }
        }
        "default".to_owned()
    }

    fn plain(&self, name: Option<String>, statement: usize) -> (r: Option<Found>)
        ensures
            found_view(r) == plainly(text_option(name), statement as int),
    {
        match name {
            Some(name) => Some(Found { local: name.clone(), name, statement, whole: false }),
            None => None,
        }
    }

    fn published_at(&self, i: usize) -> (r: Option<Found>)
        requires
            self.valid(),
            i < self.nodes.len(),
        ensures
            found_view(r) == published(self.views(), i as int, self.source@),
            r matches Some(f) ==> f.statement < self.nodes.len(),
    {
        let ghost views = self.views();
        if self.kind_is(i, "export_specifier") {
            let statement = match self.outer_exporter_of(i) {
                Some(s) => s,
                None => {
                    return None;
                },
            };
            if !self.in_kind(i, "export_clause") {
                return None;
            }
            match self.text_under(i, "name") {
                None => None,
                Some(local) => match self.text_under(i, "alias") {
                    Some(name) => Some(Found { name, local, statement, whole: false }),
                    None => self.plain(Some(local), statement),
                },
            }
        } else if self.kind_is(i, "variable_declarator") {
            match (self.above(i), self.outer_exporter_of(i)) {
                (Some(list), Some(statement)) => match find_child(self.nodes, self.parents, i, "name") {
                    Some(n) => if self.field_is(list, "declaration") && self.kind_is(n, "identifier") {
                        self.plain(cleaned_text(self.nodes, Some(n), self.source), statement)
                    } else {
                        None
                    },
                    None => None,
                },
                _ => None,
            }
        } else if self.kind_is(i, "identifier") && self.in_kind(i, "namespace_export") {
            match (self.outer_exporter_of(i), cleaned_text(self.nodes, Some(i), self.source)) {
                (Some(statement), Some(name)) => Some(Found { name, local: "*".to_owned(), statement, whole: false }),
                _ => None,
            }
        } else {
            match self.exporter_of(i) {
                None => None,
                Some(statement) => if self.kind_is(i, "default") {
                    Some(
                        Found { name: "default".to_owned(), local: self.local_of_default(statement), statement, whole: false },
                    )
                } else if self.kind_is(i, "*") {
                    Some(Found { name: "*".to_owned(), local: "*".to_owned(), statement, whole: true })
                } else if self.field_is(i, "declaration") && !self.kind_is(i - 1, "default") {
                    self.plain(self.text_under(i, "name"), statement)
                } else {
                    None
                },
            }
        }
    }
}

fn range_of_function(functions: &Vec<FunctionDefinition>, name: &str) -> (r: Option<SourceRange>)
    ensures
        r == function_range(crate::languages::definition_views(functions@), name@),
{
    let ghost views = crate::languages::definition_views(functions@);
    let mut i: usize = 0;
    assert(views.skip(0) =~= views);
    while i < functions.len()
        invariant
            i <= functions.len(),
            views == crate::languages::definition_views(functions@),
            function_range(views, name@) == function_range(views.skip(i as int), name@),
        decreases functions.len() - i,
    {
        assert(views.skip(i as int)[0] == functions@[i as int]@);
        assert(views.skip(i as int).drop_first() =~= views.skip(i + 1));
        if same_text(functions[i].qualified_name.as_str(), name) {
            return Some(functions[i].range);
        }
        i = i + 1;
    }
    assert(views.skip(i as int).len() == 0);
    None
}

/// Read what a module with a given syntax tree publishes.
pub fn read_surface(nodes: &Vec<SyntaxNode>, source: &str, functions: &Vec<FunctionDefinition>) -> (r: Result<Surface, DiffScopeError>)
    ensures
        match r {
            Ok(surface) => surface_from(
                SurfaceView::empty(),
                node_views(nodes@),
                0,
                source@,
                crate::languages::definition_views(functions@),
            ) == Ok::<SurfaceView, ErrorView>(surface@),
            Err(error) => surface_from(
                SurfaceView::empty(),
                node_views(nodes@),
                0,
                source@,
                crate::languages::definition_views(functions@),
            ) == Err::<SurfaceView, ErrorView>(error@),
        },
{
    let ghost views = node_views(nodes@);
    let ghost defined = crate::languages::definition_views(functions@);
    let parents = parents_of(nodes);
    let reader = Reader { nodes, parents: &parents, source };
    let mut out = Surface { names: TextSet::new(), symbols: TextMap::new(), modules: TextSet::new() };
    assert(out@ =~= SurfaceView::empty());
    let mut i: usize = 0;
    while i < nodes.len()
        invariant
            reader.valid(),
            reader.nodes == nodes,
            reader.source == source,
            views == reader.views(),
            defined == crate::languages::definition_views(functions@),
            i <= nodes.len(),
            surface_from(out@, views, i as int, source@, defined) == surface_from(
                SurfaceView::empty(),
                views,
                0,
                source@,
                defined,
            ),
        decreases nodes.len() - i,
    {
        let ghost state = out@;
        assert(views[i as int] == nodes@[i as int]@);
        if reader.statement_at(i, "export_statement") {
            if let Some(specifier) = reader.text_under(i, "source") {
                out.modules.insert(specifier);
            }
        }
        let ghost modules = out.modules@;
        match reader.published_at(i) {
            None => {
                assert(out@ =~= (SurfaceView { modules, ..state }));
            },
            Some(found) => if found.whole {
                let ghost name = found.name@;
                out.names.insert(found.name);
                assert(out@ =~= (SurfaceView { names: state.names.insert(name), modules, ..state }));
            } else {
                let line: u32 = match to_u32(nodes[i].start_row, 1, "export line") {
                    Ok(n) => n,
                    Err(error) => {
                        return Err(error);
                    },
                };
                let from = reader.text_under(found.statement, "source");
                let function = if from.is_none() {
                    range_of_function(functions, found.local.as_str())
                } else {
                    None
                };
                let ghost name = found.name@;
                let ghost held = out.symbols@;
                let symbol = ExportedSymbol { local: found.local, from, function, line };
                let ghost one = symbol@;
                out.names.insert(found.name.clone());
                out.symbols.insert(found.name, symbol);
                assert(symbol_map(out.symbols@) =~= symbol_map(held).insert(name, one));
            },
        }
        i = i + 1;
    }
    Ok(out)
}

/// What a file imports: the specifiers with the line each is first written on,
/// and the names it binds.
#[verifier::ext_equal]
pub struct FactsView {
    pub specifiers: Map<Seq<char>, u32>,
    pub bindings: Map<Seq<char>, BindingView>,
}

/// The statement around the clause that a position is in, through `steps` nodes.
pub open spec fn importer(nodes: Seq<NodeView>, i: int) -> Option<int> {
    match parent(nodes, i) {
        Some(p) => if nodes[p].kind == "import_clause"@ {
            match parent(nodes, p) {
                Some(s) => if is_statement(nodes, s, "import_statement"@) {
                    Some(s)
                } else {
                    None
                },
                None => None,
            }
        } else {
            None
        },
        None => None,
    }
}

/// The name that the node at a position binds, what it refers to, and the
/// statement that binds it.
pub open spec fn bound(nodes: Seq<NodeView>, i: int, source: Seq<char>) -> Option<(Seq<char>, ImportedView, int)> {
    let kind = nodes[i].kind;
    if kind == "identifier"@ {
        match (importer(nodes, i), cleaned(nodes, Some(i), source)) {
            (Some(statement), Some(name)) => Some((name, ImportedView::Default, statement)),
            (None, Some(name)) => match parent(nodes, i) {
                Some(p) => if nodes[p].kind == "namespace_import"@ && importer(nodes, p) is Some {
                    Some((name, ImportedView::Namespace, importer(nodes, p)->0))
                } else {
                    None
                },
                None => None,
            },
            _ => None,
        }
    } else if kind == "import_specifier"@ {
        match parent(nodes, i) {
            Some(p) => match (importer(nodes, p), own_name(nodes, i, source)) {
                (Some(statement), Some(name)) => match cleaned(nodes, child(nodes, i, "alias"@), source) {
                    Some(alias) => Some((alias, ImportedView::Named(name), statement)),
                    None => Some((name, ImportedView::Named(name), statement)),
                },
                _ => None,
            },
            None => None,
        }
    } else {
        None
    }
}

/// The specifier that a statement names, and the line it is written on.
pub open spec fn named_module(nodes: Seq<NodeView>, i: int, source: Seq<char>) -> Option<(Seq<char>, Result<u32, ErrorView>)> {
    match child(nodes, i, "source"@) {
        Some(c) => match cleaned(nodes, Some(c), source) {
            Some(specifier) => Some((specifier, fits_u32(nodes[c].start_row + 1, "import line"@))),
            None => None,
        },
        None => None,
    }
}

impl FactsView {
    /// Nothing imported.
    pub open spec fn empty() -> FactsView {
        FactsView { specifiers: Map::empty(), bindings: Map::empty() }
    }

    /// A specifier seen on a line; the earliest line is kept.
    pub open spec fn seen(self, specifier: Seq<char>, line: u32) -> FactsView {
        FactsView {
            specifiers: self.specifiers.insert(
                specifier,
                if self.specifiers.contains_key(specifier) && self.specifiers[specifier] < line {
                    self.specifiers[specifier]
                } else {
                    line
                },
            ),
            ..self
        }
    }

    /// One more node met. The first binding of a name is kept.
    pub open spec fn after_node(self, nodes: Seq<NodeView>, i: int, source: Seq<char>) -> Result<FactsView, ErrorView> {
        if is_statement(nodes, i, "import_statement"@) || is_statement(nodes, i, "export_statement"@) {
            match named_module(nodes, i, source) {
                Some((specifier, Ok(line))) => Ok(self.seen(specifier, line)),
                Some((_, Err(error))) => Err(error),
                None => Ok(self),
            }
        } else {
            match bound(nodes, i, source) {
                None => Ok(self),
                Some((local, imported, statement)) => match named_module(nodes, statement, source) {
                    Some((specifier, Ok(line))) => if self.bindings.contains_key(local) {
                        Ok(self)
                    } else {
                        Ok(FactsView { bindings: self.bindings.insert(local, BindingView { imported, specifier, line }), ..self })
                    },
                    Some((_, Err(error))) => Err(error),
                    None => Ok(self),
                },
            }
        }
    }
}

/// What a file imports once the nodes from `i` on have been met.
pub open spec fn facts_from(state: FactsView, nodes: Seq<NodeView>, i: int, source: Seq<char>) -> Result<FactsView, ErrorView>
    decreases nodes.len() - i,
{
    if i < 0 || i >= nodes.len() {
        Ok(state)
    } else {
        match state.after_node(nodes, i, source) {
            Err(error) => Err(error),
            Ok(next) => facts_from(next, nodes, i + 1, source),
        }
    }
}

/// Everything one parse of a file's import region yields.
#[derive(Debug, PartialEq, Eq)]
pub struct ImportFacts {
    pub specifiers: TextMap<u32>,
    pub bindings: TextMap<ImportBinding>,
}

/// Bindings by what they hold.
pub open spec fn binding_map(bindings: Map<Seq<char>, ImportBinding>) -> Map<Seq<char>, BindingView> {
    bindings.map_values(|b: ImportBinding| b@)
}

impl View for ImportFacts {
    type V = FactsView;

    open spec fn view(&self) -> FactsView {
        FactsView { specifiers: self.specifiers@, bindings: binding_map(self.bindings@) }
    }
}

impl ImportFacts {
    /// Nothing imported.
    pub fn new() -> (r: Self)
        ensures
            r@ == FactsView::empty(),
    {
        let r = ImportFacts { specifiers: TextMap::new(), bindings: TextMap::new() };
        assert(r@ =~= FactsView::empty());
        r
    }
}

spec fn bound_view(b: Option<(String, ImportedName, usize)>) -> Option<(Seq<char>, ImportedView, int)> {
    match b {
        Some((local, imported, statement)) => Some((local@, imported@, statement as int)),
        None => None,
    }
}

impl<'a> Reader<'a> {
    fn importer_of(&self, i: usize) -> (r: Option<usize>)
        requires
            self.valid(),
            i < self.nodes.len(),
        ensures
            position(r) == importer(self.views(), i as int),
            r matches Some(p) ==> p < i,
    {
        match self.above(i) {
            Some(p) => if self.kind_is(p, "import_clause") {
                match self.above(p) {
                    Some(s) => if self.statement_at(s, "import_statement") {
                        Some(s)
                    } else {
                        None
                    },
                    None => None,
                }
            } else {
                None
            },
            None => None,
        }
    }

    fn bound_at(&self, i: usize) -> (r: Option<(String, ImportedName, usize)>)
        requires
            self.valid(),
            i < self.nodes.len(),
        ensures
            bound_view(r) == bound(self.views(), i as int, self.source@),
            r matches Some(b) ==> b.2 < self.nodes.len(),
    {
        if self.kind_is(i, "identifier") {
            match (self.importer_of(i), cleaned_text(self.nodes, Some(i), self.source)) {
                (Some(statement), Some(name)) => Some((name, ImportedName::Default, statement)),
                (None, Some(name)) => match self.above(i) {
                    Some(p) => if self.kind_is(p, "namespace_import") {
                        match self.importer_of(p) {
                            Some(statement) => Some((name, ImportedName::Namespace, statement)),
                            None => None,
                        }
                    } else {
                        None
                    },
                    None => None,
                },
                _ => None,
            }
        } else if self.kind_is(i, "import_specifier") {
            match self.above(i) {
                Some(p) => match (self.importer_of(p), self.text_under(i, "name")) {
                    (Some(statement), Some(name)) => match self.text_under(i, "alias") {
                        Some(alias) => Some((alias, ImportedName::Named(name), statement)),
                        None => Some((name.clone(), ImportedName::Named(name), statement)),
                    },
                    _ => None,
                },
                None => None,
            }
        } else {
            None
        }
    }

    fn module_named_by(&self, i: usize) -> (r: Result<Option<(String, u32)>, DiffScopeError>)
        requires
            self.valid(),
            i < self.nodes.len(),
        ensures
            match r {
                Ok(Some((specifier, line))) => named_module(self.views(), i as int, self.source@) == Some(
                    (specifier@, Ok::<u32, ErrorView>(line)),
                ),
                Ok(None) => named_module(self.views(), i as int, self.source@) is None,
                Err(error) => named_module(self.views(), i as int, self.source@) matches Some((_, outcome)) && outcome == Err::<
                    u32,
                    ErrorView,
                >(error@),
            },
    {
        match find_child(self.nodes, self.parents, i, "source") {
            None => Ok(None),
            Some(c) => match cleaned_text(self.nodes, Some(c), self.source) {
                None => Ok(None),
                Some(specifier) => {
                    assert(self.views()[c as int] == self.nodes@[c as int]@);
                    match to_u32(self.nodes[c].start_row, 1, "import line") {
                        Ok(line) => Ok(Some((specifier, line))),
                        Err(error) => Err(error),
                    }
                },
            },
        }
    }
}

impl ImportFacts {
    fn see(&mut self, specifier: String, line: u32)
        ensures
            final(self)@ == old(self)@.seen(specifier@, line),
    {
        let kept: u32 = match self.specifiers.get(specifier.as_str()) {
            Some(earlier) => if *earlier < line {
                *earlier
            } else {
                line
            },
            None => line,
        };
        let ghost given = self@;
        let ghost name = specifier@;
        self.specifiers.insert(specifier, kept);
        assert(self@ =~= given.seen(name, line));
    }

    fn read_node(&mut self, reader: &Reader, i: usize) -> (r: Result<(), DiffScopeError>)
        requires
            reader.valid(),
            i < reader.nodes.len(),
        ensures
            match r {
                Ok(()) => old(self)@.after_node(reader.views(), i as int, reader.source@) == Ok::<FactsView, ErrorView>(
                    final(self)@,
                ),
                Err(error) => old(self)@.after_node(reader.views(), i as int, reader.source@) == Err::<FactsView, ErrorView>(
                    error@,
                ),
            },
    {
        let ghost given = self@;
        if reader.statement_at(i, "import_statement") || reader.statement_at(i, "export_statement") {
            match reader.module_named_by(i) {
                Ok(Some((specifier, line))) => {
                    self.see(specifier, line);
                },
                Ok(None) => {},
                Err(error) => {
                    return Err(error);
                },
            }
        } else {
            match reader.bound_at(i) {
                None => {},
                Some((local, imported, statement)) => match reader.module_named_by(statement) {
                    Ok(Some((specifier, line))) => {
                        if !self.bindings.contains_key(local.as_str()) {
                            let ghost held = self.bindings@;
                            let ghost name = local@;
                            let binding = ImportBinding { imported, specifier, line };
                            let ghost one = binding@;
                            self.bindings.insert(local, binding);
                            assert(binding_map(self.bindings@) =~= binding_map(held).insert(name, one));
                        }
                    },
                    Ok(None) => {},
                    Err(error) => {
                        return Err(error);
                    },
                },
            }
        }
        Ok(())
    }
}

/// Read what a file with a given syntax tree imports.
pub fn read_imports(nodes: &Vec<SyntaxNode>, source: &str) -> (r: Result<ImportFacts, DiffScopeError>)
    ensures
        match r {
            Ok(facts) => facts_from(FactsView::empty(), node_views(nodes@), 0, source@) == Ok::<FactsView, ErrorView>(facts@),
            Err(error) => facts_from(FactsView::empty(), node_views(nodes@), 0, source@) == Err::<FactsView, ErrorView>(error@),
        },
{
    let ghost views = node_views(nodes@);
    let parents = parents_of(nodes);
    let reader = Reader { nodes, parents: &parents, source };
    let mut out = ImportFacts::new();
    let mut i: usize = 0;
    while i < nodes.len()
        invariant
            reader.valid(),
            reader.nodes == nodes,
            reader.source == source,
            views == reader.views(),
            i <= nodes.len(),
            facts_from(out@, views, i as int, source@) == facts_from(FactsView::empty(), views, 0, source@),
        decreases nodes.len() - i,
    {
        match out.read_node(&reader, i) {
            Ok(()) => {},
            Err(error) => {
                return Err(error);
            },
        }
        i = i + 1;
    }
    Ok(out)
}

} // verus!

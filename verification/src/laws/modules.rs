//! What a source file imports and exports.

use vstd::prelude::*;

use crate::languages::modules::{
    bound, default_local, facts_from, function_range, is_statement, named_module, published, specifier_of, surface_from, BindingView, FactsView, ImportedView,
    Published, SurfaceView, SymbolView,
};
use crate::languages::syntax::{child, child_from, parent, NodeView};
use crate::languages::typescript::{cleaned, malformed, own_name, parsed_analysis, quotes};
use crate::languages::{
    character_start, hash_from, import_head, import_prefix, is_ascii_space, last_place, range_from, scan_of, source_outcome,
    starts_character, DefinitionView, DiagnosticSeverity, Language, LanguageDiagnosticCode, LanguageDiagnosticView,
};
use crate::text::{lemma_span, trim_by, trim_end_by};
use crate::ErrorView;

verus! {

/// The parent of a node is the nearest node before it that is less deep.
pub proof fn lemma_parent_is_nearest(nodes: Seq<NodeView>, i: int, p: int)
    requires
        0 <= i < nodes.len(),
    ensures
        parent(nodes, i) == Some(p) <==> 0 <= p < i && nodes[p].depth < nodes[i].depth && forall|k: int|
            p < k < i ==> (#[trigger] nodes[k]).depth >= nodes[i].depth,
{
    crate::languages::syntax::lemma_shallower(nodes, i - 1, nodes[i].depth);
    if 0 <= p < i && nodes[p].depth < nodes[i].depth && (forall|k: int| p < k < i ==> (#[trigger] nodes[k]).depth >= nodes[i].depth) {
        lemma_reaches(nodes, i - 1, nodes[i].depth, p);
    }
}

proof fn lemma_reaches(nodes: Seq<NodeView>, j: int, depth: u32, p: int)
    requires
        0 <= p <= j < nodes.len(),
        nodes[p].depth < depth,
        forall|k: int| p < k <= j ==> (#[trigger] nodes[k]).depth >= depth,
    ensures
        crate::languages::syntax::shallower(nodes, j, depth) == Some(p),
    decreases j,
{
    if j > p {
        lemma_reaches(nodes, j - 1, depth, p);
    }
}

proof fn lemma_child_from(nodes: Seq<NodeView>, i: int, j: int, field: Seq<char>)
    requires
        0 <= i < j,
    ensures
        child_from(nodes, i, j, field) matches Some(c) ==> {
            &&& j <= c < nodes.len()
            &&& parent(nodes, c) == Some(i)
            &&& nodes[c].field == Some(field)
            &&& forall|k: int| j <= k < c ==> !(#[trigger] parent(nodes, k) == Some(i) && nodes[k].field == Some(field))
        },
    decreases nodes.len() - j,
{
    if j < nodes.len() && nodes[j].depth > nodes[i].depth && !(parent(nodes, j) == Some(i) && nodes[j].field == Some(field)) {
        lemma_child_from(nodes, i, j + 1, field);
    }
}

proof fn lemma_child_found(nodes: Seq<NodeView>, i: int, j: int, field: Seq<char>, c: int)
    requires
        0 <= i < j <= c < nodes.len(),
        parent(nodes, c) == Some(i),
        nodes[c].field == Some(field),
    ensures
        child_from(nodes, i, j, field) matches Some(first) && first <= c,
    decreases c - j,
{
    lemma_parent_is_nearest(nodes, c, i);
    assert(nodes[j].depth > nodes[i].depth);
    if !(parent(nodes, j) == Some(i) && nodes[j].field == Some(field)) {
        lemma_child_found(nodes, i, j + 1, field, c);
    }
}

/// The child of a node under a field is the first node with that field whose
/// parent it is, and there is none where no such node is.
pub proof fn lemma_child_is_first(nodes: Seq<NodeView>, i: int, field: Seq<char>, c: int)
    requires
        0 <= i < nodes.len(),
    ensures
        child(nodes, i, field) matches Some(first) ==> i < first < nodes.len() && parent(nodes, first) == Some(i) && nodes[first].field == Some(field),
        i < c < nodes.len() && parent(nodes, c) == Some(i) && nodes[c].field == Some(field) ==> (child(nodes, i, field) matches Some(first) && first
            <= c),
{
    lemma_child_from(nodes, i, i + 1, field);
    if i < c < nodes.len() && parent(nodes, c) == Some(i) && nodes[c].field == Some(field) {
        lemma_child_found(nodes, i, i + 1, field, c);
    }
}

/// A name is read without the quotation marks around it.
pub proof fn lemma_quotes_are_dropped(mark: char, name: Seq<char>)
    requires
        mark == '\'' || mark == '"' || mark == '`',
        name.len() > 0,
        name[0] != '\'' && name[0] != '"' && name[0] != '`',
        name.last() != '\'' && name.last() != '"' && name.last() != '`',
    ensures
        trim_by(seq![mark] + name + seq![mark], quotes()) == name,
        trim_by(name, quotes()) == name,
{
    let s = seq![mark] + name + seq![mark];
    assert(s[0] == mark);
    assert(s[1] == name[0]);
    lemma_span(s, quotes(), 1);
    let rest = s.skip(1);
    assert(rest.last() == mark);
    assert(rest.drop_last() =~= name);
    assert(trim_end_by(rest, quotes()) == trim_end_by(name, quotes()));
    lemma_span(name, quotes(), 0);
    assert(name.skip(0) =~= name);
}

/// Whether a top-level import or export names a module on a line.
pub open spec fn names_module(nodes: Seq<NodeView>, i: int, source: Seq<char>, specifier: Seq<char>, line: u32) -> bool {
    &&& 0 <= i < nodes.len()
    &&& nodes[i].kind == "import_statement"@ || nodes[i].kind == "export_statement"@
    &&& parent(nodes, i) == Some(0int)
    &&& child(nodes, i, "source"@) matches Some(c) && cleaned(nodes, Some(c), source) == Some(specifier) && line == nodes[c].start_row + 1
}

/// What is known of the modules named before a node.
spec fn specifiers_known(facts: FactsView, nodes: Seq<NodeView>, n: int, source: Seq<char>) -> bool {
    &&& forall|s: Seq<char>| #[trigger]
        facts.specifiers.contains_key(s) ==> exists|i: int| i < n && #[trigger] names_module(nodes, i, source, s, facts.specifiers[s])
    &&& forall|i: int, s: Seq<char>, line: u32|
        i < n && #[trigger] names_module(nodes, i, source, s, line) ==> facts.specifiers.contains_key(s) && facts.specifiers[s] <= line
}

proof fn lemma_specifiers_after(before: FactsView, nodes: Seq<NodeView>, n: int, source: Seq<char>)
    requires
        0 <= n < nodes.len(),
        specifiers_known(before, nodes, n, source),
        before.after_node(nodes, n, source) is Ok,
    ensures
        specifiers_known(before.after_node(nodes, n, source)->Ok_0, nodes, n + 1, source),
{
    let after = before.after_node(nodes, n, source)->Ok_0;
    assert forall|s: Seq<char>| #[trigger] after.specifiers.contains_key(s) implies exists|i: int|
        i < n + 1 && #[trigger] names_module(nodes, i, source, s, after.specifiers[s]) by {
        if before.specifiers.contains_key(s) && after.specifiers[s] == before.specifiers[s] {
            let i = choose|i: int| i < n && #[trigger] names_module(nodes, i, source, s, before.specifiers[s]);
            assert(names_module(nodes, i, source, s, after.specifiers[s]));
        } else {
            assert(names_module(nodes, n, source, s, after.specifiers[s]));
        }
    }
    assert forall|i: int, s: Seq<char>, line: u32| i < n + 1 && #[trigger] names_module(nodes, i, source, s, line) implies after.specifiers.contains_key(
        s,
    ) && after.specifiers[s] <= line by {
        if i < n {
            assert(before.specifiers.contains_key(s) && before.specifiers[s] <= line);
        }
    }
}

proof fn lemma_specifiers(state: FactsView, nodes: Seq<NodeView>, n: int, source: Seq<char>)
    requires
        0 <= n <= nodes.len(),
        specifiers_known(state, nodes, n, source),
        facts_from(state, nodes, n, source) is Ok,
    ensures
        specifiers_known(facts_from(state, nodes, n, source)->Ok_0, nodes, nodes.len() as int, source),
    decreases nodes.len() - n,
{
    if n < nodes.len() {
        lemma_specifiers_after(state, nodes, n, source);
        lemma_specifiers(state.after_node(nodes, n, source)->Ok_0, nodes, n + 1, source);
    }
}

/// The modules of a file are those that its top-level imports and exports name,
/// each with the first line that names it.
pub proof fn lemma_modules_are_those_named(nodes: Seq<NodeView>, source: Seq<char>)
    requires
        facts_from(FactsView::empty(), nodes, 0, source) is Ok,
    ensures
        ({
            let facts = facts_from(FactsView::empty(), nodes, 0, source)->Ok_0;
            &&& forall|s: Seq<char>| #[trigger]
                facts.specifiers.contains_key(s) ==> exists|i: int| #[trigger] names_module(nodes, i, source, s, facts.specifiers[s])
            &&& forall|i: int, s: Seq<char>, line: u32| #[trigger]
                names_module(nodes, i, source, s, line) ==> facts.specifiers.contains_key(s) && facts.specifiers[s] <= line
        }),
{
    lemma_specifiers(FactsView::empty(), nodes, 0, source);
    let facts = facts_from(FactsView::empty(), nodes, 0, source)->Ok_0;
    assert forall|i: int, s: Seq<char>, line: u32| #[trigger] names_module(nodes, i, source, s, line) implies facts.specifiers.contains_key(s)
        && facts.specifiers[s] <= line by {
        assert(i < nodes.len());
    }
}

/// Whether a node is in the clause of a top-level import.
pub open spec fn in_clause_of(nodes: Seq<NodeView>, i: int, statement: int) -> bool {
    parent(nodes, i) matches Some(clause) && nodes[clause].kind == "import_clause"@ && parent(nodes, clause) == Some(statement) && statement < nodes.len()
        && nodes[statement].kind == "import_statement"@ && parent(nodes, statement) == Some(0int)
}

/// A plain name in the clause of an import is its default, a name behind a star
/// the whole module, and a name in braces that export, under its alias where it
/// has one. Nothing else binds a name.
#[verifier::rlimit(60)]
#[verifier::spinoff_prover]
pub proof fn lemma_import_binds(nodes: Seq<NodeView>, i: int, source: Seq<char>, statement: int, name: Seq<char>)
    requires
        0 <= i < nodes.len(),
    ensures
        nodes[i].kind == "identifier"@ && in_clause_of(nodes, i, statement) && cleaned(nodes, Some(i), source) == Some(name) ==> bound(nodes, i, source)
            == Some((name, ImportedView::Default, statement)),
        nodes[i].kind == "identifier"@ && (parent(nodes, i) matches Some(star) && nodes[star].kind == "namespace_import"@ && in_clause_of(
            nodes,
            star,
            statement,
        )) && cleaned(nodes, Some(i), source) == Some(name) ==> bound(nodes, i, source) == Some((name, ImportedView::Namespace, statement)),
        nodes[i].kind == "import_specifier"@ && (parent(nodes, i) matches Some(braces) && in_clause_of(nodes, braces, statement)) && own_name(
            nodes,
            i,
            source,
        ) == Some(name) ==> bound(nodes, i, source) == Some(
            (
                match cleaned(nodes, child(nodes, i, "alias"@), source) {
                    Some(alias) => alias,
                    None => name,
                },
                ImportedView::Named(name),
                statement,
            ),
        ),
        bound(nodes, i, source) is Some ==> nodes[i].kind == "identifier"@ || nodes[i].kind == "import_specifier"@,
        bound(nodes, i, source) matches Some((_, imported, st)) ==> match imported {
            ImportedView::Default => in_clause_of(nodes, i, st),
            ImportedView::Namespace => parent(nodes, i) matches Some(star) && nodes[star].kind == "namespace_import"@ && in_clause_of(nodes, star, st),
            ImportedView::Named(_) => parent(nodes, i) matches Some(braces) && in_clause_of(nodes, braces, st),
        },
{
    reveal_strlit("identifier");
    reveal_strlit("import_specifier");
    reveal_strlit("import_clause");
    reveal_strlit("namespace_import");
    assert("identifier"@.len() != "import_specifier"@.len());
    assert("import_clause"@.len() != "namespace_import"@.len());
    if let Some(p) = parent(nodes, i) {
        lemma_parent_is_nearest(nodes, i, p);
        if let Some(q) = parent(nodes, p) {
            lemma_parent_is_nearest(nodes, p, q);
        }
    }
}

/// Whether a node binds a name from a module.
pub open spec fn binds(nodes: Seq<NodeView>, i: int, source: Seq<char>, local: Seq<char>, binding: BindingView) -> bool {
    &&& 0 <= i < nodes.len()
    &&& !is_statement(nodes, i, "import_statement"@)
    &&& !is_statement(nodes, i, "export_statement"@)
    &&& bound(nodes, i, source) matches Some((name, imported, statement)) && name == local && imported == binding.imported && named_module(
        nodes,
        statement,
        source,
    ) == Some((binding.specifier, Ok::<u32, ErrorView>(binding.line)))
}

/// Whether no node before another binds a name.
pub open spec fn binds_first(nodes: Seq<NodeView>, i: int, source: Seq<char>, local: Seq<char>) -> bool {
    forall|k: int, other: BindingView| k < i ==> !#[trigger] binds(nodes, k, source, local, other)
}

spec fn bindings_known(facts: FactsView, nodes: Seq<NodeView>, n: int, source: Seq<char>) -> bool {
    &&& forall|local: Seq<char>| #[trigger]
        facts.bindings.contains_key(local) ==> exists|i: int|
            i < n && #[trigger] binds(nodes, i, source, local, facts.bindings[local]) && binds_first(nodes, i, source, local)
    &&& forall|i: int, local: Seq<char>, binding: BindingView|
        i < n && #[trigger] binds(nodes, i, source, local, binding) ==> facts.bindings.contains_key(local)
}

proof fn lemma_bindings_after(before: FactsView, nodes: Seq<NodeView>, n: int, source: Seq<char>)
    requires
        0 <= n < nodes.len(),
        bindings_known(before, nodes, n, source),
        before.after_node(nodes, n, source) is Ok,
    ensures
        bindings_known(before.after_node(nodes, n, source)->Ok_0, nodes, n + 1, source),
{
    let after = before.after_node(nodes, n, source)->Ok_0;
    assert forall|local: Seq<char>| #[trigger] after.bindings.contains_key(local) implies exists|i: int|
        i < n + 1 && #[trigger] binds(nodes, i, source, local, after.bindings[local]) && binds_first(nodes, i, source, local) by {
        if before.bindings.contains_key(local) {
            let i = choose|i: int|
                i < n && #[trigger] binds(nodes, i, source, local, before.bindings[local]) && binds_first(nodes, i, source, local);
            assert(binds(nodes, i, source, local, after.bindings[local]));
        } else {
            assert(binds(nodes, n, source, local, after.bindings[local]));
            assert forall|k: int, other: BindingView| k < n implies !#[trigger] binds(nodes, k, source, local, other) by {}
            assert(binds_first(nodes, n, source, local));
        }
    }
    assert forall|i: int, local: Seq<char>, binding: BindingView| i < n + 1 && #[trigger] binds(nodes, i, source, local, binding) implies after.bindings.contains_key(
        local,
    ) by {
        if i < n {
            assert(before.bindings.contains_key(local));
        }
    }
}

proof fn lemma_bindings(state: FactsView, nodes: Seq<NodeView>, n: int, source: Seq<char>)
    requires
        0 <= n <= nodes.len(),
        bindings_known(state, nodes, n, source),
        facts_from(state, nodes, n, source) is Ok,
    ensures
        bindings_known(facts_from(state, nodes, n, source)->Ok_0, nodes, nodes.len() as int, source),
    decreases nodes.len() - n,
{
    if n < nodes.len() {
        lemma_bindings_after(state, nodes, n, source);
        lemma_bindings(state.after_node(nodes, n, source)->Ok_0, nodes, n + 1, source);
    }
}

/// The bindings of a file are those of its imports; where a name is bound more
/// than once, the first counts.
pub proof fn lemma_first_binding_counts(nodes: Seq<NodeView>, source: Seq<char>)
    requires
        facts_from(FactsView::empty(), nodes, 0, source) is Ok,
    ensures
        ({
            let facts = facts_from(FactsView::empty(), nodes, 0, source)->Ok_0;
            &&& forall|local: Seq<char>| #[trigger]
                facts.bindings.contains_key(local) ==> exists|i: int| #[trigger]
                    binds(nodes, i, source, local, facts.bindings[local]) && binds_first(nodes, i, source, local)
            &&& forall|i: int, local: Seq<char>, binding: BindingView| #[trigger]
                binds(nodes, i, source, local, binding) ==> facts.bindings.contains_key(local)
        }),
{
    lemma_bindings(FactsView::empty(), nodes, 0, source);
    let facts = facts_from(FactsView::empty(), nodes, 0, source)->Ok_0;
    assert forall|i: int, local: Seq<char>, binding: BindingView| #[trigger] binds(nodes, i, source, local, binding) implies facts.bindings.contains_key(
        local,
    ) by {
        assert(i < nodes.len());
    }
}

/// A scan tells the modules that have a name, and the bindings from them.
pub proof fn lemma_scan_keeps_named_modules(facts: FactsView, truncated: bool, s: Seq<char>)
    ensures
        ({
            let scan = scan_of(facts, truncated);
            &&& scan.truncated == truncated
            &&& scan.specifiers.contains_key(s) <==> facts.specifiers.contains_key(s) && s.len() > 0
            &&& scan.specifiers.contains_key(s) ==> scan.specifiers[s] == facts.specifiers[s]
            &&& scan.bindings.contains_key(s) <==> facts.bindings.contains_key(s) && facts.bindings[s].specifier.len() > 0
            &&& scan.bindings.contains_key(s) ==> scan.bindings[s] == facts.bindings[s]
        }),
{
    if s.len() == 0 {
        assert(s =~= Seq::empty());
    }
}

/// Whether a node is a top-level export.
pub open spec fn exports(nodes: Seq<NodeView>, statement: int) -> bool {
    0 <= statement < nodes.len() && nodes[statement].kind == "export_statement"@ && parent(nodes, statement) == Some(0int)
}

/// A name in the braces of an export is published under its alias, or under its
/// own name; a declared variable, function or class under its own name; what is
/// exported by default as `default`; and a star publishes all.
#[verifier::rlimit(60)]
#[verifier::spinoff_prover]
pub proof fn lemma_export_publishes(nodes: Seq<NodeView>, i: int, source: Seq<char>, statement: int, name: Seq<char>)
    requires
        0 < i < nodes.len(),
        exports(nodes, statement),
    ensures
        nodes[i].kind == "export_specifier"@ && (parent(nodes, i) matches Some(braces) && nodes[braces].kind == "export_clause"@ && parent(
            nodes,
            braces,
        ) == Some(statement)) && own_name(nodes, i, source) == Some(name) ==> published(nodes, i, source) == Some(
            Published {
                name: match cleaned(nodes, child(nodes, i, "alias"@), source) {
                    Some(alias) => alias,
                    None => name,
                },
                local: name,
                statement,
                whole: false,
            },
        ),
        nodes[i].kind == "variable_declarator"@ && (parent(nodes, i) matches Some(list) && nodes[list].field == Some("declaration"@) && parent(
            nodes,
            list,
        ) == Some(statement)) && (child(nodes, i, "name"@) matches Some(n) && nodes[n].kind == "identifier"@ && cleaned(nodes, Some(n), source)
            == Some(name)) ==> published(nodes, i, source) == Some(Published { name, local: name, statement, whole: false }),
        nodes[i].kind == "identifier"@ && (parent(nodes, i) matches Some(star) && nodes[star].kind == "namespace_export"@ && parent(nodes, star)
            == Some(statement)) && cleaned(nodes, Some(i), source) == Some(name) ==> published(nodes, i, source) == Some(
            Published { name, local: "*"@, statement, whole: false },
        ),
        nodes[i].kind == "default"@ && parent(nodes, i) == Some(statement) ==> published(nodes, i, source) == Some(
            Published { name: "default"@, local: default_local(nodes, statement, source), statement, whole: false },
        ),
        nodes[i].kind == "*"@ && parent(nodes, i) == Some(statement) ==> published(nodes, i, source) == Some(
            Published { name: "*"@, local: "*"@, statement, whole: true },
        ),
        (nodes[i].kind == "function_declaration"@ || nodes[i].kind == "class_declaration"@ || nodes[i].kind == "interface_declaration"@ || nodes[i].kind
            == "type_alias_declaration"@ || nodes[i].kind == "enum_declaration"@) && nodes[i].field == Some("declaration"@) && parent(nodes, i) == Some(
            statement,
        ) && nodes[i - 1].kind != "default"@ && own_name(nodes, i, source) == Some(name) ==> published(nodes, i, source) == Some(
            Published { name, local: name, statement, whole: false },
        ),
{
    reveal_strlit("export_specifier");
    reveal_strlit("variable_declarator");
    reveal_strlit("identifier");
    reveal_strlit("namespace_export");
    reveal_strlit("export_statement");
    reveal_strlit("default");
    reveal_strlit("*");
    reveal_strlit("function_declaration");
    reveal_strlit("class_declaration");
    reveal_strlit("interface_declaration");
    reveal_strlit("type_alias_declaration");
    reveal_strlit("enum_declaration");
    assert("export_specifier"@.len() != "variable_declarator"@.len());
    assert("export_specifier"@.len() != "identifier"@.len());
    assert("variable_declarator"@.len() != "identifier"@.len());
    assert("default"@.len() != "*"@.len());
    assert("enum_declaration"@[1] != "export_specifier"@[1]);
    assert("namespace_export"@[0] != "export_statement"@[0]);
    if let Some(p) = parent(nodes, i) {
        lemma_parent_is_nearest(nodes, i, p);
    }
}

/// What is exported by default goes by the name it declares, else by the name
/// it is, and else by `default`.
pub proof fn lemma_default_goes_by(nodes: Seq<NodeView>, statement: int, source: Seq<char>, name: Seq<char>)
    ensures
        (child(nodes, statement, "declaration"@) matches Some(d) && own_name(nodes, d, source) == Some(name)) ==> default_local(
            nodes,
            statement,
            source,
        ) == name,
        child(nodes, statement, "declaration"@) is None && (child(nodes, statement, "value"@) matches Some(v) && nodes[v].kind == "identifier"@
            && cleaned(nodes, Some(v), source) == Some(name)) ==> default_local(nodes, statement, source) == name,
        child(nodes, statement, "declaration"@) is None && (child(nodes, statement, "value"@) matches Some(v) ==> nodes[v].kind != "identifier"@)
            ==> default_local(nodes, statement, source) == "default"@,
{
}

/// What is known of the names published before a node.
spec fn names_known(surface: SurfaceView, nodes: Seq<NodeView>, n: int, source: Seq<char>, functions: Seq<DefinitionView>) -> bool {
    &&& forall|name: Seq<char>| #[trigger]
        surface.names.contains(name) <==> exists|i: int| 0 <= i < n && #[trigger] publishes(nodes, i, source, name)
    &&& forall|module: Seq<char>| #[trigger]
        surface.modules.contains(module) <==> exists|i: int| 0 <= i < n && #[trigger] passes_on(nodes, i, source, module)
    &&& forall|name: Seq<char>| #[trigger]
        surface.symbols.contains_key(name) ==> exists|i: int|
            0 <= i < n && #[trigger] publishes(nodes, i, source, name) && is_symbol(nodes, i, source, functions, surface.symbols[name])
}

/// Whether a node publishes a name.
pub open spec fn publishes(nodes: Seq<NodeView>, i: int, source: Seq<char>, name: Seq<char>) -> bool {
    published(nodes, i, source) matches Some(found) && found.name == name
}

/// Whether a node passes on what a module exports.
pub open spec fn passes_on(nodes: Seq<NodeView>, i: int, source: Seq<char>, module: Seq<char>) -> bool {
    exports(nodes, i) && specifier_of(nodes, i, source) == Some(module)
}

/// Whether a symbol is the one that a node publishes.
pub open spec fn is_symbol(nodes: Seq<NodeView>, i: int, source: Seq<char>, functions: Seq<DefinitionView>, symbol: SymbolView) -> bool {
    published(nodes, i, source) matches Some(found) && !found.whole && {
        &&& symbol.local == found.local
        &&& symbol.line == nodes[i].start_row + 1
        &&& symbol.from == specifier_of(nodes, found.statement, source)
        &&& symbol.from is Some ==> symbol.function is None
        &&& symbol.from is None ==> symbol.function == function_range(functions, found.local)
    }
}

#[verifier::rlimit(60)]
#[verifier::spinoff_prover]
proof fn lemma_names_after(before: SurfaceView, nodes: Seq<NodeView>, n: int, source: Seq<char>, functions: Seq<DefinitionView>)
    requires
        0 <= n < nodes.len(),
        names_known(before, nodes, n, source, functions),
        before.after_node(nodes, n, source, functions) is Ok,
    ensures
        names_known(before.after_node(nodes, n, source, functions)->Ok_0, nodes, n + 1, source, functions),
{
    let after = before.after_node(nodes, n, source, functions)->Ok_0;
    assert forall|name: Seq<char>| #[trigger] after.names.contains(name) <==> exists|i: int|
        0 <= i < n + 1 && #[trigger] publishes(nodes, i, source, name) by {
        if publishes(nodes, n, source, name) {
            assert(after.names.contains(name));
        }
        if before.names.contains(name) {
            let i = choose|i: int| 0 <= i < n && #[trigger] publishes(nodes, i, source, name);
            assert(publishes(nodes, i, source, name));
        }
        if exists|i: int| 0 <= i < n + 1 && #[trigger] publishes(nodes, i, source, name) {
            let i = choose|i: int| 0 <= i < n + 1 && #[trigger] publishes(nodes, i, source, name);
            if i < n {
                assert(before.names.contains(name));
            }
        }
    }
    assert forall|module: Seq<char>| #[trigger] after.modules.contains(module) <==> exists|i: int|
        0 <= i < n + 1 && #[trigger] passes_on(nodes, i, source, module) by {
        if passes_on(nodes, n, source, module) {
            assert(after.modules.contains(module));
        }
        if before.modules.contains(module) {
            let i = choose|i: int| 0 <= i < n && #[trigger] passes_on(nodes, i, source, module);
            assert(passes_on(nodes, i, source, module));
        }
        if exists|i: int| 0 <= i < n + 1 && #[trigger] passes_on(nodes, i, source, module) {
            let i = choose|i: int| 0 <= i < n + 1 && #[trigger] passes_on(nodes, i, source, module);
            if i < n {
                assert(before.modules.contains(module));
            }
        }
    }
    assert forall|name: Seq<char>| #[trigger] after.symbols.contains_key(name) implies exists|i: int|
        0 <= i < n + 1 && #[trigger] publishes(nodes, i, source, name) && is_symbol(nodes, i, source, functions, after.symbols[name]) by {
        if publishes(nodes, n, source, name) && !published(nodes, n, source)->0.whole {
            assert(is_symbol(nodes, n, source, functions, after.symbols[name]));
        } else {
            let i = choose|i: int|
                0 <= i < n && #[trigger] publishes(nodes, i, source, name) && is_symbol(nodes, i, source, functions, before.symbols[name]);
            assert(publishes(nodes, i, source, name));
        }
    }
}

proof fn lemma_names(state: SurfaceView, nodes: Seq<NodeView>, n: int, source: Seq<char>, functions: Seq<DefinitionView>)
    requires
        0 <= n <= nodes.len(),
        names_known(state, nodes, n, source, functions),
        surface_from(state, nodes, n, source, functions) is Ok,
    ensures
        names_known(surface_from(state, nodes, n, source, functions)->Ok_0, nodes, nodes.len() as int, source, functions),
    decreases nodes.len() - n,
{
    if n < nodes.len() {
        lemma_names_after(state, nodes, n, source, functions);
        lemma_names(state.after_node(nodes, n, source, functions)->Ok_0, nodes, n + 1, source, functions);
    }
}

/// A file exports the names that its exports publish, and passes on the modules
/// that they name. A symbol tells its local name, its line, the module it comes
/// from, and the range of the function it is.
pub proof fn lemma_surface_is_what_is_published(nodes: Seq<NodeView>, source: Seq<char>, functions: Seq<DefinitionView>)
    requires
        surface_from(SurfaceView::empty(), nodes, 0, source, functions) is Ok,
    ensures
        ({
            let surface = surface_from(SurfaceView::empty(), nodes, 0, source, functions)->Ok_0;
            let n = nodes.len() as int;
            &&& forall|name: Seq<char>| #[trigger]
                surface.names.contains(name) <==> exists|i: int| 0 <= i < n && #[trigger] publishes(nodes, i, source, name)
            &&& forall|module: Seq<char>| #[trigger]
                surface.modules.contains(module) <==> exists|i: int| 0 <= i < n && #[trigger] passes_on(nodes, i, source, module)
            &&& forall|name: Seq<char>| #[trigger]
                surface.symbols.contains_key(name) ==> exists|i: int|
                    0 <= i < n && #[trigger] publishes(nodes, i, source, name) && is_symbol(nodes, i, source, functions, surface.symbols[name])
        }),
{
    lemma_names(SurfaceView::empty(), nodes, 0, source, functions);
}

/// The range of a named function is that of the first one of that name.
pub proof fn lemma_function_range_is_of_first(functions: Seq<DefinitionView>, name: Seq<char>, k: int)
    ensures
        0 <= k < functions.len() && functions[k].qualified_name == name && (forall|j: int|
            0 <= j < k ==> (#[trigger] functions[j]).qualified_name != name) ==> function_range(functions, name) == Some(functions[k].range),
        (forall|j: int| 0 <= j < functions.len() ==> (#[trigger] functions[j]).qualified_name != name) ==> function_range(functions, name) is None,
    decreases functions.len(),
{
    if functions.len() > 0 {
        let rest = functions.drop_first();
        assert(functions[0] == functions[0]);
        lemma_function_range_is_of_first(rest, name, k - 1);
        assert(forall|j: int| 0 <= j < rest.len() ==> #[trigger] rest[j] == functions[j + 1]);
        if 0 < k < functions.len() {
            assert(rest[k - 1] == functions[k]);
        }
    }
}

/// Whether a word of bytes stands at a place.
pub open spec fn stands_at(source: Seq<u8>, word: Seq<u8>, at: int) -> bool {
    0 <= at && at + word.len() <= source.len() && source.subrange(at, at + word.len()) == word
}

proof fn lemma_last_place(haystack: Seq<u8>, needle: Seq<u8>, start: int, at: int)
    requires
        start + needle.len() <= haystack.len(),
        stands_at(haystack, needle, at),
        at <= start,
    ensures
        at <= last_place(haystack, needle, start) <= start,
    decreases start,
{
    if start > 0 {
        if at == start {
            assert(haystack.skip(start).subrange(0, needle.len() as int) =~= needle);
        }
        if !needle.is_prefix_of(haystack.skip(start)) {
            lemma_last_place(haystack, needle, start - 1, at);
        }
    }
}

/// The part of a source that is scanned for imports starts it, is no longer
/// than the scan allows, and goes at least five hundred and twelve bytes on from any
/// place where the word `import` or the word `from` stands, as far as both
/// allow. It ends where a character starts.
pub proof fn lemma_imports_are_in_the_head(source: Seq<u8>, at: int)
    requires
        stands_at(source, seq![105u8, 109, 112, 111, 114, 116], at) || stands_at(source, seq![102u8, 114, 111, 109], at),
    ensures
        import_prefix(source) >= at + 512,
        import_head(source).is_prefix_of(source),
        import_head(source).len() <= 65536,
        ({
            let n = import_head(source).len() as int;
            &&& n == source.len() || n == 0 || !(0x80 <= source[n] < 0xc0)
            &&& forall|k: int| n < k && k <= at + 512 && k <= 65536 && k < source.len() ==> 0x80 <= #[trigger] source[k] < 0xc0
        }),
{
    let a = seq![105u8, 109, 112, 111, 114, 116];
    let b = seq![102u8, 114, 111, 109];
    if stands_at(source, a, at) {
        lemma_last_place(source, a, source.len() - a.len(), at);
    }
    if stands_at(source, b, at) {
        lemma_last_place(source, b, source.len() - b.len(), at);
    }
    let wanted = import_prefix(source);
    let bounded = if wanted < 65536 {
        wanted
    } else {
        65536
    };
    let end = if bounded < source.len() {
        bounded
    } else {
        source.len() as int
    };
    lemma_not_before(source, a, source.len() - a.len());
    lemma_not_before(source, b, source.len() - b.len());
    lemma_character_start(source, end);
    let n = character_start(source, end);
    assert(import_head(source) == source.take(n));
    assert(source.subrange(0, n) =~= source.take(n));
}

proof fn lemma_not_before(haystack: Seq<u8>, needle: Seq<u8>, start: int)
    ensures
        last_place(haystack, needle, start) >= 0,
    decreases start,
{
    if start > 0 && !needle.is_prefix_of(haystack.skip(start)) {
        lemma_not_before(haystack, needle, start - 1);
    }
}

proof fn lemma_character_start(source: Seq<u8>, end: int)
    requires
        0 <= end <= source.len(),
    ensures
        ({
            let n = character_start(source, end);
            &&& 0 <= n <= end
            &&& n == source.len() || n == 0 || !(0x80 <= source[n] < 0xc0)
            &&& forall|k: int| n < k && k <= end && k < source.len() ==> 0x80 <= #[trigger] source[k] < 0xc0
        }),
    decreases end,
{
    if end > 0 && !starts_character(source, end) {
        lemma_character_start(source, end - 1);
    }
}

/// Whether all bytes are white space.
pub open spec fn is_gap(gap: Seq<u8>) -> bool {
    gap.len() > 0 && forall|i: int| 0 <= i < gap.len() ==> {
        let b = #[trigger] gap[i];
        b == 9 || b == 10 || b == 12 || b == 13 || b == 32
    }
}

proof fn lemma_gap(gap: Seq<u8>, rest: Seq<u8>, hash: u64, pending: bool)
    requires
        is_gap(gap),
    ensures
        hash_from(gap + rest, hash, pending) == hash_from(rest, hash, true),
    decreases gap.len(),
{
    let s = gap + rest;
    assert(s[0] == gap[0]);
    if gap.len() == 1 {
        assert(s.drop_first() =~= rest);
    } else {
        let fewer = gap.drop_first();
        assert(is_gap(fewer)) by {
            assert forall|i: int| 0 <= i < fewer.len() implies ({
                let b = #[trigger] fewer[i];
                b == 9 || b == 10 || b == 12 || b == 13 || b == 32
            }) by {
                assert(fewer[i] == gap[i + 1]);
            }
        }
        assert(s.drop_first() =~= fewer + rest);
        lemma_gap(fewer, rest, hash, true);
    }
}

/// The hash of a text does not tell one stretch of white space from another.
pub proof fn lemma_hash_ignores_spacing(head: Seq<u8>, a: Seq<u8>, b: Seq<u8>, rest: Seq<u8>, hash: u64, pending: bool)
    requires
        is_gap(a),
        is_gap(b),
    ensures
        hash_from(head + a + rest, hash, pending) == hash_from(head + b + rest, hash, pending),
    decreases head.len(),
{
    if head.len() == 0 {
        assert(head + a + rest =~= a + rest);
        assert(head + b + rest =~= b + rest);
        lemma_gap(a, rest, hash, pending);
        lemma_gap(b, rest, hash, pending);
    } else {
        let x = head + a + rest;
        let y = head + b + rest;
        let fewer = head.drop_first();
        assert(x[0] == head[0] && y[0] == head[0]);
        assert(x.drop_first() =~= fewer + a + rest);
        assert(y.drop_first() =~= fewer + b + rest);
        let spaced = if pending {
            crate::languages::hash_step(hash, 32)
        } else {
            hash
        };
        if is_ascii_space(head[0]) {
            lemma_hash_ignores_spacing(fewer, a, b, rest, hash, true);
        } else {
            lemma_hash_ignores_spacing(fewer, a, b, rest, crate::languages::hash_step(spaced, head[0]), false);
        }
    }
}

/// A range counts lines from one and columns from zero.
pub proof fn lemma_range_counts_from_one(start_row: int, start_column: int, end_row: int, end_column: int)
    requires
        0 <= start_row < u32::MAX,
        0 <= start_column <= u32::MAX,
        0 <= end_row < u32::MAX,
        0 <= end_column <= u32::MAX,
    ensures
        range_from(start_row, start_column, end_row, end_column) matches Ok(range) && range.start_line == start_row + 1 && range.start_column
            == start_column && range.end_line == end_row + 1 && range.end_column == end_column,
{
}

/// A file of another language, or over five mebibytes, has no functions and no
/// exports, and one diagnostic that says why.
pub proof fn lemma_what_is_not_analysed(path: Seq<char>, source: Seq<u8>)
    ensures
        crate::languages::language_of(path) is None ==> (source_outcome(path, source) matches Ok(analysis) && analysis.language is None
            && analysis.functions.len() == 0 && analysis.surface.names == Set::<Seq<char>>::empty() && analysis.diagnostics.len() == 1
            && analysis.diagnostics[0].code == LanguageDiagnosticCode::UnsupportedLanguage && analysis.diagnostics[0].severity
            == DiagnosticSeverity::Info),
        crate::languages::language_of(path) is Some && source.len() > 5242880 ==> (source_outcome(path, source) matches Ok(analysis)
            && analysis.language == crate::languages::language_of(path) && analysis.functions.len() == 0 && analysis.surface.names == Set::<
            Seq<char>,
        >::empty() && analysis.diagnostics.len() == 1 && analysis.diagnostics[0].code == LanguageDiagnosticCode::OversizedFile
            && analysis.diagnostics[0].severity == DiagnosticSeverity::Warning),
{
}

/// A source with a syntax error has one warning, over the whole of it; one
/// without has none; and one that is no text has an error and no functions.
pub proof fn lemma_faults_are_told(language: Language, source: Seq<u8>, nodes: Seq<NodeView>)
    ensures
        nodes.len() > 0 && !nodes[0].has_error ==> malformed(nodes) == Ok::<Seq<LanguageDiagnosticView>, ErrorView>(Seq::empty()),
        nodes.len() > 0 && nodes[0].has_error ==> (malformed(nodes) matches Ok(told) ==> told.len() == 1 && told[0].code
            == LanguageDiagnosticCode::MalformedSource && told[0].severity == DiagnosticSeverity::Warning && (told[0].range matches Some(range)
            && range.start_line == nodes[0].start_row + 1 && range.end_line == nodes[0].end_row + 1)),
        !vstd::utf8::valid_utf8(source) ==> (parsed_analysis(language, source) matches Ok(analysis) && analysis.language == Some(language)
            && analysis.functions.len() == 0 && analysis.diagnostics.len() == 1 && analysis.diagnostics[0].code == LanguageDiagnosticCode::InvalidUtf8
            && analysis.diagnostics[0].severity == DiagnosticSeverity::Error),
{
}

} // verus!

//! Functions of TypeScript sources, read off their syntax trees.

use std::collections::HashSet;

use vstd::prelude::*;
use vstd::utf8::*;

use crate::collections::TextMap;
use crate::languages::modules::{read_surface, surface_from, Surface, SurfaceView};
use crate::languages::syntax::{
    are_parents, child, find_child, grammar_fault, lemma_shallower, load_grammar, node_source, node_text, node_views, parent,
    parents_of, parse_source, position, syntax_tree, NodeView, SyntaxNode,
};
use crate::languages::{
    body_hash, call_views, definition_views, diagnostic_views, fits_u32, range_from, text_hash, to_u32, AnalysisView, CallSite, CallView, DefinitionView, DiagnosticSeverity, FunctionDefinition,
    FunctionKind, Language, LanguageDiagnostic, LanguageDiagnosticCode, LanguageDiagnosticView, SourceAnalysis, SourceRange,
};
use crate::metrics::FunctionMetrics;
use crate::order::{arrange_by, by_rank, compare_numbers, number_rank, or_else, otherwise};
use crate::text::{
    chars_of, compare, decimal, decode, join2, join4, lines, lines_of, number_text, same_text, spaces, text_option, text_rank, texts, trim,
    trim_by, trim_where, utf8_fault, Rank,
};
use crate::{DiffScopeError, ErrorView};

verus! {

/// Whether nodes of a kind are functions.
pub open spec fn is_function(kind: Seq<char>) -> bool {
    ||| kind == "function_declaration"@
    ||| kind == "generator_function_declaration"@
    ||| kind == "function_expression"@
    ||| kind == "generator_function"@
    ||| is_method(kind)
    ||| kind == "arrow_function"@
}

/// Whether nodes of a kind are members of a class or an interface.
pub open spec fn is_method(kind: Seq<char>) -> bool {
    kind == "method_definition"@ || kind == "abstract_method_signature"@ || kind == "method_signature"@
}

fn method_node(kind: &str) -> (r: bool)
    ensures
        r == is_method(kind@),
{
    same_text(kind, "method_definition") || same_text(kind, "abstract_method_signature") || same_text(kind, "method_signature")
}

fn function_node(kind: &str) -> (r: bool)
    ensures
        r == is_function(kind@),
{
    same_text(kind, "function_declaration") || same_text(kind, "generator_function_declaration") || same_text(
        kind,
        "function_expression",
    ) || same_text(kind, "generator_function") || method_node(kind) || same_text(kind, "arrow_function")
}

/// The condition of being a quotation mark.
pub open spec fn quotes() -> spec_fn(char) -> bool {
    |c: char| c == '\'' || c == '"' || c == '`'
}

/// A property name without the quotation marks around it.
fn clean_property_name(name: &str) -> (r: String)
    ensures
        r@ == trim_by(name@, quotes()),
{
    let test = |c: char| -> (b: bool)
        ensures
            b == (c == '\'' || c == '"' || c == '`'),
    {
        c == '\'' || c == '"' || c == '`'
    };
    trim_where(name, test, Ghost(quotes()))
}

/// The source text of an optional node, without quotation marks.
pub open spec fn cleaned(nodes: Seq<NodeView>, at: Option<int>, source: Seq<char>) -> Option<Seq<char>> {
    match at {
        None => None,
        Some(i) => match node_source(nodes, i, source) {
            None => None,
            Some(text) => Some(trim_by(text, quotes())),
        },
    }
}

pub(crate) fn cleaned_text(nodes: &Vec<SyntaxNode>, at: Option<usize>, source: &str) -> (r: Option<String>)
    requires
        at matches Some(i) ==> i < nodes.len(),
    ensures
        text_option(r) == cleaned(node_views(nodes@), position(at), source@),
{
    match at {
        None => None,
        Some(i) => {
            assert(node_views(nodes@)[i as int] == nodes@[i as int]@);
            match node_text(&nodes[i], source) {
                None => None,
                Some(text) => Some(clean_property_name(text)),
            }
        },
    }
}

/// The name that a node gives itself.
pub open spec fn own_name(nodes: Seq<NodeView>, i: int, source: Seq<char>) -> Option<Seq<char>> {
    cleaned(nodes, child(nodes, i, "name"@), source)
}

/// A tree with what is looked up in it again and again.
struct SourceTree<'a> {
    nodes: &'a Vec<SyntaxNode>,
    parents: Vec<Option<usize>>,
    source: &'a str,
}

impl<'a> SourceTree<'a> {
    spec fn views(&self) -> Seq<NodeView> {
        node_views(self.nodes@)
    }

    spec fn valid(&self) -> bool {
        are_parents(self.parents@, self.views())
    }

    fn explicit_name(&self, i: usize) -> (r: Option<String>)
        requires
            self.valid(),
            i < self.nodes.len(),
        ensures
            text_option(r) == own_name(self.views(), i as int, self.source@),
    {
        cleaned_text(self.nodes, find_child(self.nodes, &self.parents, i, "name"), self.source)
    }
}

/// The kind of function that a node is.
pub open spec fn function_kind(nodes: Seq<NodeView>, i: int, source: Seq<char>) -> Option<FunctionKind> {
    let kind = nodes[i].kind;
    if is_method(kind) {
        if own_name(nodes, i, source) == Some("constructor"@) {
            Some(FunctionKind::Constructor)
        } else {
            Some(FunctionKind::Method)
        }
    } else if kind == "arrow_function"@ {
        Some(FunctionKind::ArrowFunction)
    } else if is_function(kind) {
        Some(FunctionKind::Function)
    } else {
        None
    }
}

impl<'a> SourceTree<'a> {
    fn kind_of(&self, i: usize) -> (r: Option<FunctionKind>)
        requires
            self.valid(),
            i < self.nodes.len(),
        ensures
            r == function_kind(self.views(), i as int, self.source@),
    {
        assert(self.views()[i as int] == self.nodes@[i as int]@);
        let kind = self.nodes[i].kind.as_str();
        if method_node(kind) {
            match self.explicit_name(i) {
                Some(name) => if same_text(name.as_str(), "constructor") {
                    Some(FunctionKind::Constructor)
                } else {
                    Some(FunctionKind::Method)
                },
                None => Some(FunctionKind::Method),
            }
        } else if same_text(kind, "arrow_function") {
            Some(FunctionKind::ArrowFunction)
        } else if function_node(kind) {
            Some(FunctionKind::Function)
        } else {
            None
        }
    }
}

/// Whether nodes of a kind give a name to what they hold.
pub open spec fn is_holder(kind: Seq<char>) -> bool {
    kind == "variable_declarator"@ || kind == "assignment_expression"@ || kind == "pair"@ || kind == "public_field_definition"@
}

/// Whether the search for an assigned name ends at nodes of a kind.
pub open spec fn ends_search(kind: Seq<char>) -> bool {
    kind == "statement_block"@ || kind == "program"@ || kind == "class_body"@
}

/// The name that a holder gives to what it holds.
pub open spec fn held_name(nodes: Seq<NodeView>, i: int, source: Seq<char>) -> Option<Seq<char>> {
    let named = child(nodes, i, "name"@);
    let left = child(nodes, i, "left"@);
    let key = child(nodes, i, "key"@);
    cleaned(
        nodes,
        if named is Some {
            named
        } else if left is Some {
            left
        } else {
            key
        },
        source,
    )
}

/// The name that the nearest holder around a position gives, inside the nearest
/// block, class body or program.
pub open spec fn assigned_name(nodes: Seq<NodeView>, at: Option<int>, source: Seq<char>) -> Option<Seq<char>>
    decreases (match at {
        Some(i) => i + 1,
        None => 0,
    }),
{
    match at {
        None => None,
        Some(i) => if i < 0 {
            None
        } else {
            let name = held_name(nodes, i, source);
            if is_holder(nodes[i].kind) && name is Some {
                name
            } else if ends_search(nodes[i].kind) {
                None
            } else {
                proof {
                    lemma_shallower(nodes, i - 1, nodes[i].depth);
                }
                assigned_name(nodes, parent(nodes, i), source)
            }
        },
    }
}

/// Whether nodes of a kind qualify the names of what they contain.
pub open spec fn is_container(kind: Seq<char>) -> bool {
    kind == "class_declaration"@ || kind == "abstract_class_declaration"@ || kind == "interface_declaration"@ || kind == "module"@ || kind
        == "internal_module"@
}

fn container_node(kind: &str) -> (r: bool)
    ensures
        r == is_container(kind@),
{
    same_text(kind, "class_declaration") || same_text(kind, "abstract_class_declaration") || same_text(kind, "interface_declaration")
        || same_text(kind, "module") || same_text(kind, "internal_module")
}

/// The first argument at or behind `j` of an argument list.
pub open spec fn argument_from(nodes: Seq<NodeView>, i: int, j: int) -> Option<int>
    decreases nodes.len() - j,
{
    if j < 0 || j >= nodes.len() || nodes[j].depth <= nodes[i].depth {
        None
    } else if parent(nodes, j) == Some(i) && nodes[j].kind != "("@ {
        Some(j)
    } else {
        argument_from(nodes, i, j + 1)
    }
}

/// What a call adds to the identity of a callback in it: the called name and
/// the string that is its first argument.
pub open spec fn call_segment(nodes: Seq<NodeView>, i: int, source: Seq<char>) -> Option<Seq<char>> {
    match (child(nodes, i, "function"@), child(nodes, i, "arguments"@)) {
        (Some(callee), Some(list)) => match argument_from(nodes, list, list + 1) {
            None => None,
            Some(first) => if nodes[callee].kind == "identifier"@ && nodes[first].kind == "string"@ {
                match (node_source(nodes, callee, source), cleaned(nodes, Some(first), source)) {
                    (Some(name), Some(text)) => Some(name + "(\""@ + text + "\")"@),
                    _ => None,
                }
            } else {
                None
            },
        },
        _ => None,
    }
}

/// The part that one node has in the identity of what it contains.
pub open spec fn scope_part(nodes: Seq<NodeView>, i: int, source: Seq<char>, calls: bool) -> Option<Seq<char>> {
    if is_container(nodes[i].kind) {
        own_name(nodes, i, source)
    } else if calls && nodes[i].kind == "call_expression"@ {
        call_segment(nodes, i, source)
    } else {
        None
    }
}

/// The parts that a position and what is around it have in an identity, each
/// followed by a dot, the outermost first.
pub open spec fn scope(nodes: Seq<NodeView>, at: Option<int>, source: Seq<char>, calls: bool) -> Seq<char>
    decreases (match at {
        Some(i) => i + 1,
        None => 0,
    }),
{
    match at {
        None => Seq::empty(),
        Some(i) => if i < 0 {
            Seq::empty()
        } else {
            proof {
                lemma_shallower(nodes, i - 1, nodes[i].depth);
            }
            let outer = scope(nodes, parent(nodes, i), source, calls);
            match scope_part(nodes, i, source, calls) {
                Some(part) => outer + part + "."@,
                None => outer,
            }
        },
    }
}

/// The name of a function that has one: its own, that of a constructor, or the
/// one it is assigned to.
pub open spec fn given_name(nodes: Seq<NodeView>, i: int, source: Seq<char>, kind: FunctionKind) -> Option<Seq<char>> {
    if kind == FunctionKind::Constructor {
        Some("constructor"@)
    } else if own_name(nodes, i, source) is Some {
        own_name(nodes, i, source)
    } else if kind == FunctionKind::ArrowFunction || kind == FunctionKind::Function {
        assigned_name(nodes, parent(nodes, i), source)
    } else {
        None
    }
}

impl<'a> SourceTree<'a> {
    fn find_assigned_name(&self, i: usize) -> (r: Option<String>)
        requires
            self.valid(),
            i < self.nodes.len(),
        ensures
            text_option(r) == assigned_name(self.views(), parent(self.views(), i as int), self.source@),
    {
        let ghost views = self.views();
        let ghost source = self.source@;
        let mut at: Option<usize> = self.parents[i];
        proof {
            lemma_shallower(views, i - 1, views[i as int].depth);
        }
        while at.is_some()
            invariant
                self.valid(),
                views == self.views(),
                source == self.source@,
                i < self.nodes.len(),
                at matches Some(j) ==> j < self.nodes.len(),
                assigned_name(views, position(at), source) == assigned_name(views, parent(views, i as int), source),
            decreases (match at {
                Some(j) => j + 1,
                None => 0,
            }),
        {
            let j: usize = at.unwrap();
            assert(views[j as int] == self.nodes@[j as int]@);
            let kind = self.nodes[j].kind.as_str();
            if same_text(kind, "variable_declarator") || same_text(kind, "assignment_expression") || same_text(kind, "pair")
                || same_text(kind, "public_field_definition") {
                let mut holder = find_child(self.nodes, &self.parents, j, "name");
                if holder.is_none() {
                    holder = find_child(self.nodes, &self.parents, j, "left");
                }
                if holder.is_none() {
                    holder = find_child(self.nodes, &self.parents, j, "key");
                }
                let name = cleaned_text(self.nodes, holder, self.source);
                if name.is_some() {
                    return name;
                }
            }
            if same_text(kind, "statement_block") || same_text(kind, "program") || same_text(kind, "class_body") {
                return None;
            }
            proof {
                lemma_shallower(views, j - 1, views[j as int].depth);
            }
            at = self.parents[j];
        }
        None
    }

    fn first_argument(&self, i: usize) -> (r: Option<usize>)
        requires
            self.valid(),
            i < self.nodes.len(),
        ensures
            position(r) == argument_from(self.views(), i as int, i + 1),
            r matches Some(c) ==> c < self.nodes.len(),
    {
        let ghost views = self.views();
        let mut j: usize = i + 1;
        while j < self.nodes.len() && self.nodes[j].depth > self.nodes[i].depth
            invariant
                i < j <= self.nodes.len(),
                views == self.views(),
                self.valid(),
                argument_from(views, i as int, i + 1) == argument_from(views, i as int, j as int),
            decreases self.nodes.len() - j,
        {
            assert(views[j as int] == self.nodes@[j as int]@);
            assert(views[i as int] == self.nodes@[i as int]@);
            let is_child = match self.parents[j] {
                Some(p) => p == i,
                None => false,
            };
            if is_child && !same_text(self.nodes[j].kind.as_str(), "(") {
                return Some(j);
            }
            j = j + 1;
        }
        proof {
            if j < self.nodes.len() {
                assert(views[j as int] == self.nodes@[j as int]@);
                assert(views[i as int] == self.nodes@[i as int]@);
            }
        }
        None
    }

    fn segment_of_call(&self, i: usize) -> (r: Option<String>)
        requires
            self.valid(),
            i < self.nodes.len(),
        ensures
            text_option(r) == call_segment(self.views(), i as int, self.source@),
    {
        let callee = match find_child(self.nodes, &self.parents, i, "function") {
            Some(c) => c,
            None => {
                return None;
            },
        };
        let list = match find_child(self.nodes, &self.parents, i, "arguments") {
            Some(c) => c,
            None => {
                return None;
            },
        };
        let first = match self.first_argument(list) {
            Some(c) => c,
            None => {
                return None;
            },
        };
        assert(self.views()[callee as int] == self.nodes@[callee as int]@);
        assert(self.views()[first as int] == self.nodes@[first as int]@);
        if !same_text(self.nodes[callee].kind.as_str(), "identifier") || !same_text(self.nodes[first].kind.as_str(), "string") {
            return None;
        }
        match (node_text(&self.nodes[callee], self.source), cleaned_text(self.nodes, Some(first), self.source)) {
            (Some(name), Some(text)) => Some(join4(name, "(\"", text.as_str(), "\")")),
            _ => None,
        }
    }

    fn part_of(&self, i: usize, calls: bool) -> (r: Option<String>)
        requires
            self.valid(),
            i < self.nodes.len(),
        ensures
            text_option(r) == scope_part(self.views(), i as int, self.source@, calls),
    {
        assert(self.views()[i as int] == self.nodes@[i as int]@);
        let kind = self.nodes[i].kind.as_str();
        if container_node(kind) {
            self.explicit_name(i)
        } else if calls && same_text(kind, "call_expression") {
            self.segment_of_call(i)
        } else {
            None
        }
    }

    fn scope_of(&self, at: Option<usize>, calls: bool) -> (r: String)
        requires
            self.valid(),
            at matches Some(i) ==> i < self.nodes.len(),
        ensures
            r@ == scope(self.views(), position(at), self.source@, calls),
    {
        let ghost views = self.views();
        let ghost source = self.source@;
        let mut at = at;
        let ghost start = position(at);
        let mut out = String::new();
        assert(scope(views, start, source, calls) + Seq::<char>::empty() =~= scope(views, start, source, calls));
        while at.is_some()
            invariant
                self.valid(),
                views == self.views(),
                source == self.source@,
                at matches Some(j) ==> j < self.nodes.len(),
                scope(views, position(at), source, calls) + out@ == scope(views, start, source, calls),
            decreases (match at {
                Some(j) => j + 1,
                None => 0,
            }),
        {
            let j: usize = at.unwrap();
            proof {
                lemma_shallower(views, j - 1, views[j as int].depth);
            }
            let ghost inner = out@;
            match self.part_of(j, calls) {
                Some(part) => {
                    let mut longer = join2(part.as_str(), ".");
                    longer.append(out.as_str());
                    out = longer;
                    proof {
                        let outer = scope(views, parent(views, j as int), source, calls);
                        assert(outer + (part@ + "."@ + inner) =~= outer + part@ + "."@ + inner);
                    }
                },
                None => {},
            }
            at = self.parents[j];
        }
        assert(Seq::<char>::empty() + out@ =~= out@);
        out
    }

    fn name_of(&self, i: usize, kind: FunctionKind) -> (r: Option<String>)
        requires
            self.valid(),
            i < self.nodes.len(),
        ensures
            text_option(r) == given_name(self.views(), i as int, self.source@, kind),
    {
        if kind == FunctionKind::Constructor {
            return Some("constructor".to_owned());
        }
        let own = self.explicit_name(i);
        if own.is_some() {
            return own;
        }
        if kind == FunctionKind::ArrowFunction || kind == FunctionKind::Function {
            self.find_assigned_name(i)
        } else {
            None
        }
    }
}

/// Where in a source a character stands.
pub enum Mode {
    Code,
    LineComment,
    BlockComment,
    /// In a string with the given quotation mark.
    Text(char),
    /// Behind a backslash in a string.
    Escaped(char),
}

/// A source with every character of its comments but line ends replaced by a
/// space.
pub open spec fn uncommented(s: Seq<char>, mode: Mode) -> Seq<char>
    decreases s.len(),
{
    if s.len() == 0 {
        Seq::empty()
    } else {
        let c = s[0];
        let rest = s.drop_first();
        let pair = s.len() > 1;
        match mode {
            Mode::LineComment => if c == '\n' {
                seq![c] + uncommented(rest, Mode::Code)
            } else {
                seq![' '] + uncommented(rest, mode)
            },
            Mode::BlockComment => if c == '*' && pair && s[1] == '/' {
                seq![' ', ' '] + uncommented(s.skip(2), Mode::Code)
            } else if c == '\n' {
                seq![c] + uncommented(rest, mode)
            } else {
                seq![' '] + uncommented(rest, mode)
            },
            Mode::Escaped(quote) => seq![c] + uncommented(rest, Mode::Text(quote)),
            Mode::Text(quote) => seq![c] + uncommented(
                rest,
                if c == '\\' {
                    Mode::Escaped(quote)
                } else if c == quote {
                    Mode::Code
                } else {
                    mode
                },
            ),
            Mode::Code => if quotes()(c) {
                seq![c] + uncommented(rest, Mode::Text(c))
            } else if c == '/' && pair && s[1] == '/' {
                seq![' ', ' '] + uncommented(s.skip(2), Mode::LineComment)
            } else if c == '/' && pair && s[1] == '*' {
                seq![' ', ' '] + uncommented(s.skip(2), Mode::BlockComment)
            } else {
                seq![c] + uncommented(rest, mode)
            },
        }
    }
}

/// Removing comments keeps the length of a source, its line ends, and every
/// other character but those it replaces by a space.
pub proof fn lemma_uncommented_keeps_lines(s: Seq<char>, mode: Mode)
    ensures
        uncommented(s, mode).len() == s.len(),
        forall|i: int| 0 <= i < s.len() ==> (#[trigger] uncommented(s, mode)[i] == '\n' <==> s[i] == '\n'),
        forall|i: int| 0 <= i < s.len() ==> #[trigger] uncommented(s, mode)[i] == s[i] || uncommented(s, mode)[i] == ' ',
    decreases s.len(),
{
    if s.len() > 0 {
        let out = uncommented(s, mode);
        let c = s[0];
        let rest = s.drop_first();
        let (n, next) = match mode {
            Mode::LineComment => (1int, if c == '\n' {
                Mode::Code
            } else {
                mode
            }),
            Mode::BlockComment => if c == '*' && s.len() > 1 && s[1] == '/' {
                (2int, Mode::Code)
            } else {
                (1int, mode)
            },
            Mode::Escaped(quote) => (1int, Mode::Text(quote)),
            Mode::Text(quote) => (1int, if c == '\\' {
                Mode::Escaped(quote)
            } else if c == quote {
                Mode::Code
            } else {
                mode
            }),
            Mode::Code => if quotes()(c) {
                (1int, Mode::Text(c))
            } else if c == '/' && s.len() > 1 && s[1] == '/' {
                (2int, Mode::LineComment)
            } else if c == '/' && s.len() > 1 && s[1] == '*' {
                (2int, Mode::BlockComment)
            } else {
                (1int, mode)
            },
        };
        assert(s.skip(1) =~= rest);
        let tail = uncommented(s.skip(n), next);
        lemma_uncommented_keeps_lines(s.skip(n), next);
        assert forall|i: int| 0 <= i < s.len() implies (#[trigger] out[i] == '\n' <==> s[i] == '\n') && (out[i] == s[i] || out[i] == ' ') by {
            if i >= n {
                assert(out[i] == tail[i - n]);
                assert(s.skip(n)[i - n] == s[i]);
            }
        }
    }
}

/// A source without its comments.
pub fn remove_comments(source: &str) -> (r: String)
    ensures
        r@ == uncommented(source@, Mode::Code),
{
    let chars = chars_of(source);
    let n: usize = chars.len();
    let mut output = String::new();
    let mut mode = Mode::Code;
    let mut i: usize = 0;
    assert(source@.skip(0) =~= source@);
    assert(output@ + uncommented(source@, Mode::Code) =~= uncommented(source@, Mode::Code));
    while i < n
        invariant
            chars@ == source@,
            n == chars.len(),
            i <= n,
            output@ + uncommented(source@.skip(i as int), mode) == uncommented(source@, Mode::Code),
        decreases n - i,
    {
        let ghost s = source@.skip(i as int);
        let ghost done = output@;
        let c = chars[i];
        assert(s[0] == c);
        assert(s.drop_first() =~= source@.skip(i + 1));
        proof {
            if i + 1 < n {
                assert(s[1] == source@[i + 1]);
                assert(s.skip(2) =~= source@.skip(i + 2));
            }
        }
        let mut shown = c;
        let mut pair = false;
        let next = match mode {
            Mode::LineComment => if c == '\n' {
                Mode::Code
            } else {
                shown = ' ';
                Mode::LineComment
            },
            Mode::BlockComment => if c == '*' && i + 1 < n && chars[i + 1] == '/' {
                pair = true;
                Mode::Code
            } else {
                if c != '\n' {
                    shown = ' ';
                }
                Mode::BlockComment
            },
            Mode::Escaped(quote) => Mode::Text(quote),
            Mode::Text(quote) => if c == '\\' {
                Mode::Escaped(quote)
            } else if c == quote {
                Mode::Code
            } else {
                Mode::Text(quote)
            },
            Mode::Code => if c == '\'' || c == '"' || c == '`' {
                Mode::Text(c)
            } else if c == '/' && i + 1 < n && chars[i + 1] == '/' {
                pair = true;
                Mode::LineComment
            } else if c == '/' && i + 1 < n && chars[i + 1] == '*' {
                pair = true;
                Mode::BlockComment
            } else {
                Mode::Code
            },
        };
        if pair {
            output.push(' ');
            output.push(' ');
            i = i + 2;
            assert(uncommented(s, mode) == seq![' ', ' '] + uncommented(source@.skip(i as int), next));
            assert(done + (seq![' ', ' '] + uncommented(source@.skip(i as int), next)) =~= output@ + uncommented(
                source@.skip(i as int),
                next,
            ));
        } else {
            output.push(shown);
            i = i + 1;
            assert(uncommented(s, mode) == seq![shown] + uncommented(source@.skip(i as int), next));
            assert(done + (seq![shown] + uncommented(source@.skip(i as int), next)) =~= output@ + uncommented(
                source@.skip(i as int),
                next,
            ));
        }
        mode = next;
    }
    assert(source@.skip(n as int).len() == 0);
    assert(output@ =~= uncommented(source@, Mode::Code));
    output
}

/// How many lines hold more than white space.
pub open spec fn filled(all: Seq<Seq<char>>) -> nat
    decreases all.len(),
{
    if all.len() == 0 {
        0
    } else {
        filled(all.drop_last()) + if trim_by(all.last(), spaces()).len() > 0 {
            1nat
        } else {
            0
        }
    }
}

fn count_filled(all: &Vec<String>) -> (r: usize)
    ensures
        r == filled(texts(all@)),
        r <= all.len(),
{
    let ghost names = texts(all@);
    let mut count: usize = 0;
    let mut i: usize = 0;
    while i < all.len()
        invariant
            names == texts(all@),
            i <= all.len(),
            count <= i,
            count == filled(names.take(i as int)),
        decreases all.len() - i,
    {
        assert(names.take(i + 1).drop_last() =~= names.take(i as int));
        assert(names[i as int] == all@[i as int]@);
        if !trim(all[i].as_str()).as_str().is_empty() {
            count = count + 1;
        }
        i = i + 1;
    }
    assert(names.take(i as int) =~= names);
    count
}

/// Whether nodes of a kind are decisions.
pub open spec fn is_decision(kind: Seq<char>) -> bool {
    ||| kind == "if_statement"@
    ||| kind == "for_statement"@
    ||| kind == "for_in_statement"@
    ||| kind == "while_statement"@
    ||| kind == "do_statement"@
    ||| kind == "catch_clause"@
    ||| kind == "ternary_expression"@
    ||| kind == "switch_case"@
}

fn decision_node(kind: &str) -> (r: bool)
    ensures
        r == is_decision(kind@),
{
    same_text(kind, "if_statement") || same_text(kind, "for_statement") || same_text(kind, "for_in_statement") || same_text(
        kind,
        "while_statement",
    ) || same_text(kind, "do_statement") || same_text(kind, "catch_clause") || same_text(kind, "ternary_expression") || same_text(
        kind,
        "switch_case",
    )
}

/// Whether nodes of a kind are operators that may leave an operand out.
pub open spec fn is_short_operator(kind: Seq<char>) -> bool {
    kind == "&&"@ || kind == "||"@ || kind == "??"@
}

/// Whether a node has an operator that may leave an operand out.
pub open spec fn short_circuits(nodes: Seq<NodeView>, i: int) -> bool {
    &&& nodes[i].kind == "binary_expression"@
    &&& exists|c: int| 0 <= c < nodes.len() && #[trigger] parent(nodes, c) == Some(i) && is_short_operator(nodes[c].kind)
}

/// For every node whether it short-circuits.
fn mark_short_circuits(nodes: &Vec<SyntaxNode>, parents: &Vec<Option<usize>>) -> (r: Vec<bool>)
    requires
        are_parents(parents@, node_views(nodes@)),
    ensures
        r.len() == nodes.len(),
        forall|i: int| 0 <= i < nodes.len() ==> #[trigger] r@[i] == short_circuits(node_views(nodes@), i),
{
    let ghost views = node_views(nodes@);
    let mut has: Vec<bool> = Vec::new();
    let mut i: usize = 0;
    while i < nodes.len()
        invariant
            i <= nodes.len(),
            has.len() == i,
            forall|k: int| 0 <= k < i ==> !#[trigger] has@[k],
        decreases nodes.len() - i,
    {
        has.push(false);
        i = i + 1;
    }
    let mut c: usize = 0;
    while c < nodes.len()
        invariant
            c <= nodes.len(),
            views == node_views(nodes@),
            are_parents(parents@, views),
            has.len() == nodes.len(),
            forall|k: int| 0 <= k < nodes.len() ==> (#[trigger] has@[k] <==> views[k].kind == "binary_expression"@ && exists|d: int|
                0 <= d < c && #[trigger] parent(views, d) == Some(k) && is_short_operator(views[d].kind)),
        decreases nodes.len() - c,
    {
        assert(views[c as int] == nodes@[c as int]@);
        let kind = nodes[c].kind.as_str();
        let ghost held = has@;
        let short = same_text(kind, "&&") || same_text(kind, "||") || same_text(kind, "??");
        let ghost above = parent(views, c as int);
        proof {
            lemma_shallower(views, c - 1, views[c as int].depth);
            assert(position(parents@[c as int]) == above);
        }
        if short {
            if let Some(p) = parents[c] {
                assert(views[p as int] == nodes@[p as int]@);
                if same_text(nodes[p].kind.as_str(), "binary_expression") {
                    has.set(p, true);
                }
            }
        }
        proof {
            assert forall|k: int| 0 <= k < nodes.len() implies (#[trigger] has@[k] <==> views[k].kind == "binary_expression"@ && exists|d: int|
                0 <= d < c + 1 && #[trigger] parent(views, d) == Some(k) && is_short_operator(views[d].kind)) by {
                assert(held[k] <==> views[k].kind == "binary_expression"@ && exists|d: int|
                    0 <= d < c && #[trigger] parent(views, d) == Some(k) && is_short_operator(views[d].kind));
                if held[k] {
                    let d = choose|d: int| 0 <= d < c && #[trigger] parent(views, d) == Some(k) && is_short_operator(views[d].kind);
                    assert(parent(views, d) == Some(k));
                }
                if above == Some(k) && short {
                    assert(parent(views, c as int) == Some(k));
                }
            }
        }
        c = c + 1;
    }
    has
}

/// How many decisions enclose a node within a function, where the node counts
/// for the function: those inside a nested function do not.
pub open spec fn nesting(nodes: Seq<NodeView>, function: int, i: int) -> Option<nat>
    decreases i,
{
    match parent(nodes, i) {
        None => None,
        Some(p) => if p < function || i < 0 {
            None
        } else if nodes[i].start_byte != nodes[p].start_byte && is_function(nodes[i].kind) {
            None
        } else if p == function {
            Some(0)
        } else {
            proof {
                lemma_shallower(nodes, i - 1, nodes[i].depth);
            }
            match nesting(nodes, function, p) {
                None => None,
                Some(n) => if is_decision(nodes[p].kind) {
                    Some(n + 1)
                } else {
                    Some(n)
                },
            }
        },
    }
}

/// What a node adds to the number of paths through a function.
pub open spec fn path_points(nodes: Seq<NodeView>, function: int, i: int) -> nat {
    if nesting(nodes, function, i) is Some && (is_decision(nodes[i].kind) || short_circuits(nodes, i)) {
        1
    } else {
        0
    }
}

/// What a node adds to the effort of reading a function: a decision counts once
/// more for every decision around it.
pub open spec fn effort_points(nodes: Seq<NodeView>, function: int, i: int) -> nat {
    match nesting(nodes, function, i) {
        None => 0,
        Some(n) => if is_decision(nodes[i].kind) {
            1 + n
        } else if short_circuits(nodes, i) {
            1
        } else {
            0
        },
    }
}

/// The end of the subtree of a node at or behind `j`.
pub open spec fn subtree_end(nodes: Seq<NodeView>, i: int, j: int) -> int
    decreases nodes.len() - j,
{
    if j < nodes.len() && nodes[j].depth > nodes[i].depth {
        subtree_end(nodes, i, j + 1)
    } else {
        j
    }
}

/// The path points of the nodes between a function and `to`.
pub open spec fn path_total(nodes: Seq<NodeView>, function: int, to: int) -> nat
    decreases to - function,
{
    if to <= function + 1 {
        0
    } else {
        path_total(nodes, function, to - 1) + path_points(nodes, function, to - 1)
    }
}

/// The effort points of the nodes between a function and `to`.
pub open spec fn effort_total(nodes: Seq<NodeView>, function: int, to: int) -> nat
    decreases to - function,
{
    if to <= function + 1 {
        0
    } else {
        effort_total(nodes, function, to - 1) + effort_points(nodes, function, to - 1)
    }
}

/// The cyclomatic complexity of a function: one more than its path points.
pub open spec fn cyclomatic(nodes: Seq<NodeView>, function: int) -> nat {
    1 + path_total(nodes, function, subtree_end(nodes, function, function + 1))
}

/// The cognitive complexity of a function: its effort points.
pub open spec fn cognitive(nodes: Seq<NodeView>, function: int) -> nat {
    effort_total(nodes, function, subtree_end(nodes, function, function + 1))
}

proof fn lemma_totals_grow(nodes: Seq<NodeView>, function: int, from: int, to: int)
    requires
        from <= to,
    ensures
        path_total(nodes, function, from) <= path_total(nodes, function, to),
        effort_total(nodes, function, from) <= effort_total(nodes, function, to),
    decreases to - from,
{
    if from < to {
        lemma_totals_grow(nodes, function, from, to - 1);
    }
}

proof fn lemma_subtree_end(nodes: Seq<NodeView>, i: int, j: int)
    ensures
        subtree_end(nodes, i, j) >= j,
        j < nodes.len() && nodes[j].depth > nodes[i].depth ==> subtree_end(nodes, i, j) > j,
    decreases nodes.len() - j,
{
    if j < nodes.len() && nodes[j].depth > nodes[i].depth {
        lemma_subtree_end(nodes, i, j + 1);
    }
}

/// The cyclomatic and the cognitive complexity of a function, or none where one
/// of them does not fit 32 bits.
fn complexity(tree: &SourceTree, short: &Vec<bool>, function: usize) -> (r: Option<(u32, u32)>)
    requires
        tree.valid(),
        function < tree.nodes.len(),
        short.len() == tree.nodes.len(),
        forall|i: int| 0 <= i < tree.nodes.len() ==> #[trigger] short@[i] == short_circuits(tree.views(), i),
    ensures
        match r {
            Some((paths, effort)) => paths == cyclomatic(tree.views(), function as int) && effort == cognitive(
                tree.views(),
                function as int,
            ),
            None => cyclomatic(tree.views(), function as int) > u32::MAX || cognitive(tree.views(), function as int) > u32::MAX,
        },
{
    let ghost views = tree.views();
    let ghost f = function as int;
    let nodes = tree.nodes;
    let mut levels: Vec<Option<u64>> = Vec::new();
    let mut paths: u64 = 0;
    let mut effort: u64 = 0;
    let mut j: usize = function + 1;
    while j < nodes.len() && nodes[j].depth > nodes[function].depth
        invariant
            tree.valid(),
            nodes == tree.nodes,
            views == tree.views(),
            f == function,
            function < j <= nodes.len(),
            short.len() == nodes.len(),
            forall|i: int| 0 <= i < nodes.len() ==> #[trigger] short@[i] == short_circuits(views, i),
            levels.len() == j - function - 1,
            forall|k: int| f < k < j ==> views[k].depth > views[f].depth,
            forall|k: int|
                0 <= k < levels.len() ==> (match #[trigger] levels@[k] {
                    Some(n) => nesting(views, f, f + 1 + k) == Some(n as nat) && n <= k,
                    None => nesting(views, f, f + 1 + k) is None,
                }),
            paths == path_total(views, f, j as int),
            effort == effort_total(views, f, j as int),
            paths < u32::MAX,
            effort <= u32::MAX,
            subtree_end(views, f, j as int) == subtree_end(views, f, f + 1),
        decreases nodes.len() - j,
    {
        assert(views[j as int] == nodes@[j as int]@);
        assert(views[f] == nodes@[f]@);
        let ghost above = parent(views, j as int);
        proof {
            lemma_shallower(views, j - 1, views[j as int].depth);
            assert(position(tree.parents@[j as int]) == above);
            assert(above is Some && above->0 >= f);
            lemma_subtree_end(views, f, j + 1);
            lemma_totals_grow(views, f, j + 1, subtree_end(views, f, f + 1));
        }
        let p: usize = match tree.parents[j] {
            Some(p) => p,
            None => function,
        };
        assert(views[p as int] == nodes@[p as int]@);
        let kind = nodes[j].kind.as_str();
        let level: Option<u64> = if nodes[j].start_byte != nodes[p].start_byte && function_node(kind) {
            None
        } else if p == function {
            Some(0)
        } else {
            assert(levels@[p - function - 1] == levels@[p - function - 1]);
            match levels[p - function - 1] {
                None => None,
                Some(n) => if decision_node(nodes[p].kind.as_str()) {
                    Some(n + 1)
                } else {
                    Some(n)
                },
            }
        };
        if let Some(n) = level {
            if decision_node(kind) {
                if n >= u32::MAX as u64 {
                    return None;
                }
                paths = paths + 1;
                effort = effort + 1 + n;
            } else if short[j] {
                paths = paths + 1;
                effort = effort + 1;
            }
        }
        levels.push(level);
        j = j + 1;
        if paths >= u32::MAX as u64 || effort > u32::MAX as u64 {
            return None;
        }
    }
    proof {
        if j < nodes.len() {
            assert(views[j as int] == nodes@[j as int]@);
            assert(views[f] == nodes@[f]@);
        }
    }
    Some((paths as u32 + 1, effort as u32))
}

/// What is measured of a function, or the error that it cannot be.
pub open spec fn measured(nodes: Seq<NodeView>, i: int, source: Seq<char>) -> Result<FunctionMetrics, ErrorView> {
    match node_source(nodes, i, source) {
        None => Err(ErrorView::Language("function source range is not a UTF-8 boundary"@)),
        Some(text) => {
            let physical = lines(text).len();
            let filled_lines = filled(lines(uncommented(text, Mode::Code)));
            if physical > u32::MAX {
                Err(
                    ErrorView::Language(
                        "physical LOC does not fit in u32: out of range integral type conversion attempted"@,
                    ),
                )
            } else if filled_lines > u32::MAX {
                Err(
                    ErrorView::Language(
                        "source LOC does not fit in u32: out of range integral type conversion attempted"@,
                    ),
                )
            } else if cyclomatic(nodes, i) > u32::MAX || cognitive(nodes, i) > u32::MAX {
                Err(ErrorView::Language("complexity does not fit in u32"@))
            } else {
                Ok(
                    FunctionMetrics {
                        physical_loc: physical as u32,
                        source_loc: filled_lines as u32,
                        cyclomatic_complexity: cyclomatic(nodes, i) as u32,
                        cognitive_complexity: cognitive(nodes, i) as u32,
                    },
                )
            }
        },
    }
}

fn function_metrics(tree: &SourceTree, short: &Vec<bool>, i: usize) -> (r: Result<(FunctionMetrics, u64), DiffScopeError>)
    requires
        tree.valid(),
        i < tree.nodes.len(),
        short.len() == tree.nodes.len(),
        forall|k: int| 0 <= k < tree.nodes.len() ==> #[trigger] short@[k] == short_circuits(tree.views(), k),
    ensures
        match r {
            Ok((metrics, hash)) => measured(tree.views(), i as int, tree.source@) == Ok::<FunctionMetrics, ErrorView>(metrics)
                && (node_source(tree.views(), i as int, tree.source@) matches Some(text) && hash == text_hash(text)),
            Err(error) => measured(tree.views(), i as int, tree.source@) == Err::<FunctionMetrics, ErrorView>(error@),
        },
{
    assert(tree.views()[i as int] == tree.nodes@[i as int]@);
    let text = match node_text(&tree.nodes[i], tree.source) {
        Some(text) => text,
        None => {
            return Err(DiffScopeError::Language("function source range is not a UTF-8 boundary".to_owned()));
        },
    };
    let all = lines_of(text);
    assert(all.len() == lines(text@).len());
    if all.len() as u64 > u32::MAX as u64 {
        return Err(
            DiffScopeError::Language(
                "physical LOC does not fit in u32: out of range integral type conversion attempted".to_owned(),
            ),
        );
    }
    let bare = lines_of(remove_comments(text).as_str());
    let count = count_filled(&bare);
    if count as u64 > u32::MAX as u64 {
        return Err(
            DiffScopeError::Language(
                "source LOC does not fit in u32: out of range integral type conversion attempted".to_owned(),
            ),
        );
    }
    match complexity(tree, short, i) {
        None => Err(DiffScopeError::Language("complexity does not fit in u32".to_owned())),
        Some((paths, effort)) => Ok(
            (
                FunctionMetrics {
                    physical_loc: all.len() as u32,
                    source_loc: count as u32,
                    cyclomatic_complexity: paths,
                    cognitive_complexity: effort,
                },
                body_hash(text),
            ),
        ),
    }
}

/// Whether nodes of a kind are receivers that a member call is recorded with.
pub open spec fn is_receiver(kind: Seq<char>) -> bool {
    kind == "identifier"@ || kind == "this"@ || kind == "super"@
}

/// The name that a call calls, and what it is called on. A name is written as
/// an identifier, as the property of a receiver, or as a string in brackets
/// behind one; any other callee names nothing.
pub open spec fn called(nodes: Seq<NodeView>, i: int, source: Seq<char>) -> Option<(Seq<char>, Option<Seq<char>>)> {
    if nodes[i].kind != "call_expression"@ {
        None
    } else {
        match child(nodes, i, "function"@) {
            None => None,
            Some(callee) => if nodes[callee].kind == "identifier"@ {
                match node_source(nodes, callee, source) {
                    Some(name) => Some((name, None)),
                    None => None,
                }
            } else if nodes[callee].kind == "member_expression"@ {
                called_on(nodes, child(nodes, callee, "object"@), child(nodes, callee, "property"@), "property_identifier"@, source)
            } else if nodes[callee].kind == "subscript_expression"@ {
                called_on(nodes, child(nodes, callee, "object"@), child(nodes, callee, "index"@), "string"@, source)
            } else {
                None
            },
        }
    }
}

/// The name that a member of a kind gives, and the receiver it stands behind.
pub open spec fn called_on(nodes: Seq<NodeView>, object: Option<int>, property: Option<int>, kind: Seq<char>, source: Seq<char>) -> Option<
    (Seq<char>, Option<Seq<char>>),
> {
    match (object, property) {
        (Some(o), Some(p)) => if is_receiver(nodes[o].kind) && nodes[p].kind == kind {
            match (node_source(nodes, o, source), cleaned(nodes, Some(p), source)) {
                (Some(receiver), Some(name)) => Some((name, Some(receiver))),
                _ => None,
            }
        } else {
            None
        },
        _ => None,
    }
}

/// The calls written directly in a function among the nodes before `to`. One
/// inside a nested function belongs to that function.
pub open spec fn calls_before(nodes: Seq<NodeView>, function: int, to: int, source: Seq<char>) -> Result<Seq<CallView>, ErrorView>
    decreases to - function,
{
    if to <= function + 1 {
        Ok(Seq::empty())
    } else {
        match calls_before(nodes, function, to - 1, source) {
            Err(error) => Err(error),
            Ok(before) => match (nesting(nodes, function, to - 1), called(nodes, to - 1, source)) {
                (Some(_), Some((name, receiver))) => match fits_u32(nodes[to - 1].start_row + 1, "call line"@) {
                    Err(error) => Err(error),
                    Ok(line) => Ok(before.push(CallView { name, receiver, line })),
                },
                _ => Ok(before),
            },
        }
    }
}

/// The calls written directly in a function, in source order.
pub open spec fn calls_of(nodes: Seq<NodeView>, function: int, source: Seq<char>) -> Result<Seq<CallView>, ErrorView> {
    calls_before(nodes, function, subtree_end(nodes, function, function + 1), source)
}

proof fn lemma_call_fault_stays(nodes: Seq<NodeView>, function: int, from: int, to: int, source: Seq<char>)
    requires
        from <= to,
        calls_before(nodes, function, from, source) is Err,
    ensures
        calls_before(nodes, function, to, source) == calls_before(nodes, function, from, source),
    decreases to - from,
{
    if from < to {
        lemma_call_fault_stays(nodes, function, from, to - 1, source);
    }
}

/// A called name and receiver by their texts.
spec fn called_texts(r: Option<(String, Option<String>)>) -> Option<(Seq<char>, Option<Seq<char>>)> {
    match r {
        Some((name, receiver)) => Some((name@, text_option(receiver))),
        None => None,
    }
}

impl<'a> SourceTree<'a> {
    fn member_call(&self, object: Option<usize>, property: Option<usize>, kind: &str) -> (r: Option<(String, Option<String>)>)
        requires
            self.valid(),
            object matches Some(o) ==> o < self.nodes.len(),
            property matches Some(p) ==> p < self.nodes.len(),
        ensures
            called_texts(r) == called_on(self.views(), position(object), position(property), kind@, self.source@),
    {
        match (object, property) {
            (Some(o), Some(p)) => {
                assert(self.views()[o as int] == self.nodes@[o as int]@);
                assert(self.views()[p as int] == self.nodes@[p as int]@);
                let held = self.nodes[o].kind.as_str();
                let plain = same_text(held, "identifier") || same_text(held, "this") || same_text(held, "super");
                if !plain || !same_text(self.nodes[p].kind.as_str(), kind) {
                    return None;
                }
                match (node_text(&self.nodes[o], self.source), cleaned_text(self.nodes, Some(p), self.source)) {
                    (Some(receiver), Some(name)) => Some((name, Some(receiver.to_owned()))),
                    _ => None,
                }
            },
            _ => None,
        }
    }

    fn call_at(&self, i: usize) -> (r: Option<(String, Option<String>)>)
        requires
            self.valid(),
            i < self.nodes.len(),
        ensures
            called_texts(r) == called(self.views(), i as int, self.source@),
    {
        assert(self.views()[i as int] == self.nodes@[i as int]@);
        if !same_text(self.nodes[i].kind.as_str(), "call_expression") {
            return None;
        }
        let Some(callee) = find_child(self.nodes, &self.parents, i, "function") else {
            return None;
        };
        assert(self.views()[callee as int] == self.nodes@[callee as int]@);
        let kind = self.nodes[callee].kind.as_str();
        if same_text(kind, "identifier") {
            match node_text(&self.nodes[callee], self.source) {
                Some(name) => Some((name.to_owned(), None)),
                None => None,
            }
        } else if same_text(kind, "member_expression") {
            let object = find_child(self.nodes, &self.parents, callee, "object");
            let property = find_child(self.nodes, &self.parents, callee, "property");
            self.member_call(object, property, "property_identifier")
        } else if same_text(kind, "subscript_expression") {
            let object = find_child(self.nodes, &self.parents, callee, "object");
            let index = find_child(self.nodes, &self.parents, callee, "index");
            self.member_call(object, index, "string")
        } else {
            None
        }
    }

    /// The calls written directly in a function.
    fn calls_in(&self, function: usize) -> (r: Result<Vec<CallSite>, DiffScopeError>)
        requires
            self.valid(),
            function < self.nodes.len(),
        ensures
            match r {
                Ok(calls) => calls_of(self.views(), function as int, self.source@) == Ok::<Seq<CallView>, ErrorView>(call_views(calls@)),
                Err(error) => calls_of(self.views(), function as int, self.source@) == Err::<Seq<CallView>, ErrorView>(error@),
            },
    {
        let ghost views = self.views();
        let ghost f = function as int;
        let nodes = self.nodes;
        let mut own: Vec<bool> = Vec::new();
        let mut calls: Vec<CallSite> = Vec::new();
        let mut j: usize = function + 1;
        assert(call_views(calls@) =~= Seq::<CallView>::empty());
        while j < nodes.len() && nodes[j].depth > nodes[function].depth
            invariant
                self.valid(),
                nodes == self.nodes,
                views == self.views(),
                f == function,
                function < j <= nodes.len(),
                own.len() == j - function - 1,
                forall|k: int| f < k < j ==> views[k].depth > views[f].depth,
                forall|k: int| 0 <= k < own.len() ==> (#[trigger] own@[k] <==> nesting(views, f, f + 1 + k) is Some),
                calls_before(views, f, j as int, self.source@) == Ok::<Seq<CallView>, ErrorView>(call_views(calls@)),
                subtree_end(views, f, j as int) == subtree_end(views, f, f + 1),
            decreases nodes.len() - j,
        {
            assert(views[j as int] == nodes@[j as int]@);
            assert(views[f] == nodes@[f]@);
            let ghost above = parent(views, j as int);
            proof {
                lemma_shallower(views, j - 1, views[j as int].depth);
                assert(position(self.parents@[j as int]) == above);
                assert(above is Some && above->0 >= f);
                lemma_subtree_end(views, f, j + 1);
            }
            let p: usize = match self.parents[j] {
                Some(p) => p,
                None => function,
            };
            assert(views[p as int] == nodes@[p as int]@);
            let counts = if nodes[j].start_byte != nodes[p].start_byte && function_node(nodes[j].kind.as_str()) {
                false
            } else if p == function {
                true
            } else {
                assert(own@[p - function - 1] == own@[p - function - 1]);
                own[p - function - 1]
            };
            assert(counts == (nesting(views, f, j as int) is Some));
            if counts {
                if let Some((name, receiver)) = self.call_at(j) {
                    let line: u32 = match to_u32(nodes[j].start_row, 1, "call line") {
                        Ok(line) => line,
                        Err(error) => {
                            proof {
                                lemma_call_fault_stays(views, f, j + 1, subtree_end(views, f, f + 1), self.source@);
                            }
                            return Err(error);
                        },
                    };
                    let ghost so_far = call_views(calls@);
                    let call = CallSite { name, receiver, line };
                    let ghost one = call@;
                    calls.push(call);
                    assert(call_views(calls@) =~= so_far.push(one));
                }
            }
            own.push(counts);
            j = j + 1;
        }
        proof {
            if j < nodes.len() {
                assert(views[j as int] == nodes@[j as int]@);
                assert(views[f] == nodes@[f]@);
            }
        }
        Ok(calls)
    }
}

/// What has been collected of a tree: the functions, the offsets they start
/// at, and how many functions without a name each scope holds.
#[verifier::ext_equal]
pub struct Collected {
    pub functions: Seq<DefinitionView>,
    pub starts: Set<usize>,
    pub unnamed: Map<Seq<char>, nat>,
}

/// How many functions without a name a scope holds.
pub open spec fn unnamed_in(unnamed: Map<Seq<char>, nat>, scope: Seq<char>) -> nat {
    if unnamed.contains_key(scope) {
        unnamed[scope]
    } else {
        0
    }
}

impl Collected {
    /// Nothing collected yet.
    pub open spec fn initial() -> Collected {
        Collected { functions: Seq::empty(), starts: Set::empty(), unnamed: Map::empty() }
    }

    /// The identity of a function, and the count of the functions without a
    /// name once it has been given. Those are numbered within their scope, so
    /// that one more elsewhere does not rename them.
    pub open spec fn identity(self, nodes: Seq<NodeView>, i: int, source: Seq<char>, kind: FunctionKind) -> (
        Seq<char>,
        Map<Seq<char>, nat>,
    ) {
        match given_name(nodes, i, source, kind) {
            Some(name) => (scope(nodes, parent(nodes, i), source, false) + name, self.unnamed),
            None => {
                let around = scope(nodes, parent(nodes, i), source, true);
                let number = unnamed_in(self.unnamed, around) + 1;
                (around + "<anonymous>#"@ + decimal(number), self.unnamed.insert(around, number))
            },
        }
    }

    /// One more node met.
    pub open spec fn after_node(self, language: Language, nodes: Seq<NodeView>, i: int, source: Seq<char>) -> Result<
        Collected,
        ErrorView,
    > {
        match function_kind(nodes, i, source) {
            None => Ok(self),
            Some(kind) => if self.starts.contains(nodes[i].start_byte) {
                Ok(self)
            } else {
                let (qualified_name, unnamed) = self.identity(nodes, i, source, kind);
                let at = nodes[i];
                match range_from(at.start_row as int, at.start_column as int, at.end_row as int, at.end_column as int) {
                    Err(error) => Err(error),
                    Ok(range) => match measured(nodes, i, source) {
                        Err(error) => Err(error),
                        Ok(metrics) => match calls_of(nodes, i, source) {
                            Err(error) => Err(error),
                            Ok(calls) => Ok(
                                Collected {
                                    functions: self.functions.push(
                                        DefinitionView {
                                            language,
                                            kind,
                                            qualified_name,
                                            range,
                                            metrics,
                                            calls,
                                            body_hash: text_hash(node_source(nodes, i, source)->0),
                                        },
                                    ),
                                    starts: self.starts.insert(at.start_byte),
                                    unnamed,
                                },
                            ),
                        },
                    },
                }
            },
        }
    }
}

/// What has been collected once the nodes from `i` on have been met.
pub open spec fn collected_from(state: Collected, language: Language, nodes: Seq<NodeView>, i: int, source: Seq<char>) -> Result<
    Collected,
    ErrorView,
>
    decreases nodes.len() - i,
{
    if i < 0 || i >= nodes.len() {
        Ok(state)
    } else {
        match state.after_node(language, nodes, i, source) {
            Err(error) => Err(error),
            Ok(next) => collected_from(next, language, nodes, i + 1, source),
        }
    }
}

/// The name of a function kind.
pub open spec fn kind_label(kind: FunctionKind) -> Seq<char> {
    match kind {
        FunctionKind::Function => "Function"@,
        FunctionKind::Method => "Method"@,
        FunctionKind::Constructor => "Constructor"@,
        FunctionKind::ArrowFunction => "ArrowFunction"@,
    }
}

/// The name of a function kind.
pub fn kind_name(kind: FunctionKind) -> (r: &'static str)
    ensures
        r@ == kind_label(kind),
{
    match kind {
        FunctionKind::Function => "Function",
        FunctionKind::Method => "Method",
        FunctionKind::Constructor => "Constructor",
        FunctionKind::ArrowFunction => "ArrowFunction",
    }
}

/// Where one function stands relative to another: by its start, its name and
/// the name of its kind.
pub open spec fn definition_rank(a: DefinitionView, b: DefinitionView) -> Rank {
    otherwise(
        number_rank(a.range.start_line as int, b.range.start_line as int),
        otherwise(
            number_rank(a.range.start_column as int, b.range.start_column as int),
            otherwise(
                text_rank(a.qualified_name, b.qualified_name),
                text_rank(kind_label(a.kind), kind_label(b.kind)),
            ),
        ),
    )
}

/// The ranks by which the functions of a source are sorted.
pub open spec fn definition_order() -> spec_fn(DefinitionView, DefinitionView) -> Rank {
    |a: DefinitionView, b: DefinitionView| definition_rank(a, b)
}

fn compare_definitions(a: &FunctionDefinition, b: &FunctionDefinition) -> (r: Rank)
    ensures
        r == definition_rank(a@, b@),
{
    or_else(
        compare_numbers(a.range.start_line as u64, b.range.start_line as u64),
        or_else(
            compare_numbers(a.range.start_column as u64, b.range.start_column as u64),
            or_else(
                compare(a.qualified_name.as_str(), b.qualified_name.as_str()),
                compare(kind_name(a.kind), kind_name(b.kind)),
            ),
        ),
    )
}

/// The functions and diagnostics of a source with a given syntax tree.
pub open spec fn inventory_of(language: Language, source: Seq<char>, nodes: Seq<NodeView>) -> Result<AnalysisView, ErrorView> {
    match malformed(nodes) {
        Err(error) => Err(error),
        Ok(diagnostics) => match collected_from(Collected::initial(), language, nodes, 0, source) {
            Err(error) => Err(error),
            Ok(all) => {
                let functions = crate::collections::arranged(all.functions, by_rank(definition_order()));
                match surface_from(SurfaceView::empty(), nodes, 0, source, functions) {
                    Err(error) => Err(error),
                    Ok(surface) => Ok(AnalysisView { language: Some(language), functions, surface, diagnostics }),
                }
            },
        },
    }
}

/// The diagnostics of a tree: a warning where its root holds a syntax error.
pub open spec fn malformed(nodes: Seq<NodeView>) -> Result<Seq<LanguageDiagnosticView>, ErrorView> {
    if nodes.len() > 0 && nodes[0].has_error {
        let at = nodes[0];
        match range_from(at.start_row as int, at.start_column as int, at.end_row as int, at.end_column as int) {
            Err(error) => Err(error),
            Ok(range) => Ok(
                seq![
                    LanguageDiagnosticView {
                        code: LanguageDiagnosticCode::MalformedSource,
                        severity: DiagnosticSeverity::Warning,
                        message: "source contains syntax errors; function inventory may be incomplete"@,
                        range: Some(range),
                    },
                ],
            ),
        }
    } else {
        Ok(Seq::empty())
    }
}

/// Collects the functions of a tree.
struct FunctionCollector {
    functions: Vec<FunctionDefinition>,
    starts: HashSet<usize>,
    unnamed: TextMap<u64>,
}

spec fn counts(unnamed: Map<Seq<char>, u64>) -> Map<Seq<char>, nat> {
    unnamed.map_values(|n: u64| n as nat)
}

impl View for FunctionCollector {
    type V = Collected;

    closed spec fn view(&self) -> Collected {
        Collected { functions: definition_views(self.functions@), starts: self.starts@, unnamed: counts(self.unnamed@) }
    }
}

impl FunctionCollector {
    fn identify(&mut self, tree: &SourceTree, i: usize, kind: FunctionKind) -> (r: String)
        requires
            tree.valid(),
            i < tree.nodes.len(),
            forall|s: Seq<char>| #[trigger] old(self).unnamed@.contains_key(s) ==> old(self).unnamed@[s] <= i,
        ensures
            (r@, final(self)@.unnamed) == old(self)@.identity(tree.views(), i as int, tree.source@, kind),
            final(self).functions == old(self).functions,
            final(self).starts == old(self).starts,
            forall|s: Seq<char>| #[trigger] final(self).unnamed@.contains_key(s) ==> final(self).unnamed@[s] <= i + 1,
    {
        let ghost views = tree.views();
        proof {
            lemma_shallower(views, i - 1, views[i as int].depth);
            assert(position(tree.parents@[i as int]) == parent(views, i as int));
        }
        match tree.name_of(i, kind) {
            Some(name) => {
                let mut out = tree.scope_of(tree.parents[i], false);
                out.append(name.as_str());
                out
            },
            None => {
                let around = tree.scope_of(tree.parents[i], true);
                let ghost held = self.unnamed@;
                let number: u64 = match self.unnamed.get(around.as_str()) {
                    Some(n) => *n + 1,
                    None => 1,
                };
                let mut out = join2(around.as_str(), "<anonymous>#");
                out.append(number_text(number).as_str());
                let ghost name = around@;
                self.unnamed.insert(around, number);
                assert(counts(self.unnamed@) =~= counts(held).insert(name, number as nat));
                out
            },
        }
    }

    fn collect_node(&mut self, tree: &SourceTree, short: &Vec<bool>, language: Language, i: usize) -> (r: Result<(), DiffScopeError>)
        requires
            tree.valid(),
            i < tree.nodes.len(),
            short.len() == tree.nodes.len(),
            forall|k: int| 0 <= k < tree.nodes.len() ==> #[trigger] short@[k] == short_circuits(tree.views(), k),
            forall|s: Seq<char>| #[trigger] old(self).unnamed@.contains_key(s) ==> old(self).unnamed@[s] <= i,
        ensures
            match r {
                Ok(()) => old(self)@.after_node(language, tree.views(), i as int, tree.source@) == Ok::<Collected, ErrorView>(
                    final(self)@,
                ),
                Err(error) => old(self)@.after_node(language, tree.views(), i as int, tree.source@) == Err::<
                    Collected,
                    ErrorView,
                >(error@),
            },
            forall|s: Seq<char>| #[trigger] final(self).unnamed@.contains_key(s) ==> final(self).unnamed@[s] <= i + 1,
    {
        broadcast use vstd::std_specs::hash::group_hash_axioms;

        let ghost views = tree.views();
        let ghost given = self@;
        assert(views[i as int] == tree.nodes@[i as int]@);
        let kind = match tree.kind_of(i) {
            Some(kind) => kind,
            None => {
                return Ok(());
            },
        };
        let node = &tree.nodes[i];
        if !self.starts.insert(node.start_byte) {
            assert(self.starts@ =~= given.starts);
            return Ok(());
        }
        let ghost seen = self.starts@;
        let qualified_name = self.identify(tree, i, kind);
        let range = match SourceRange::from_points(node.start_row, node.start_column, node.end_row, node.end_column) {
            Ok(range) => range,
            Err(error) => {
                return Err(error);
            },
        };
        let (metrics, hash) = match function_metrics(tree, short, i) {
            Ok(pair) => pair,
            Err(error) => {
                return Err(error);
            },
        };
        let calls = match tree.calls_in(i) {
            Ok(calls) => calls,
            Err(error) => {
                return Err(error);
            },
        };
        let function = FunctionDefinition { language, kind, qualified_name, range, metrics, calls, body_hash: hash };
        let ghost one = function@;
        self.functions.push(function);
        assert(definition_views(self.functions@) =~= given.functions.push(one));
        Ok(())
    }
}

/// Collect the functions of a source with a given syntax tree.
pub fn take_inventory(language: Language, source: &str, nodes: &Vec<SyntaxNode>) -> (r: Result<SourceAnalysis, DiffScopeError>)
    ensures
        crate::languages::analysis_outcome(r) == inventory_of(language, source@, node_views(nodes@)),
{
    broadcast use vstd::std_specs::hash::group_hash_axioms;

    let ghost views = node_views(nodes@);
    let mut diagnostics: Vec<LanguageDiagnostic> = Vec::new();
    if nodes.len() > 0 && nodes[0].has_error {
        assert(views[0] == nodes@[0]@);
        let node = &nodes[0];
        match SourceRange::from_points(node.start_row, node.start_column, node.end_row, node.end_column) {
            Ok(range) => {
                diagnostics.push(
                    LanguageDiagnostic {
                        code: LanguageDiagnosticCode::MalformedSource,
                        severity: DiagnosticSeverity::Warning,
                        message: "source contains syntax errors; function inventory may be incomplete".to_owned(),
                        range: Some(range),
                    },
                );
            },
            Err(error) => {
                return Err(error);
            },
        }
    }
    assert(malformed(views) is Ok && diagnostic_views(diagnostics@) =~= malformed(views)->Ok_0) by {
        if nodes.len() > 0 {
            assert(views[0] == nodes@[0]@);
        }
    }
    let parents = parents_of(nodes);
    let short = mark_short_circuits(nodes, &parents);
    let tree = SourceTree { nodes, parents, source };
    let mut collector = FunctionCollector { functions: Vec::new(), starts: HashSet::new(), unnamed: TextMap::new() };
    assert(collector@ =~= Collected::initial());
    let mut i: usize = 0;
    while i < nodes.len()
        invariant
            tree.valid(),
            tree.nodes == nodes,
            tree.source == source,
            views == tree.views(),
            views == node_views(nodes@),
            malformed(views) is Ok,
            short.len() == nodes.len(),
            forall|k: int| 0 <= k < nodes.len() ==> #[trigger] short@[k] == short_circuits(views, k),
            i <= nodes.len(),
            collected_from(collector@, language, views, i as int, source@) == collected_from(
                Collected::initial(),
                language,
                views,
                0,
                source@,
            ),
            forall|s: Seq<char>| #[trigger] collector.unnamed@.contains_key(s) ==> collector.unnamed@[s] <= i,
        decreases nodes.len() - i,
    {
        match collector.collect_node(&tree, &short, language, i) {
            Ok(()) => {},
            Err(error) => {
                return Err(error);
            },
        }
        i = i + 1;
    }
    let mut functions = collector.functions;
    let rank_of = |a: &FunctionDefinition, b: &FunctionDefinition| -> (r: Rank)
        ensures
            r == definition_rank(a@, b@),
    {
        compare_definitions(a, b)
    };
    arrange_by::<FunctionDefinition, DefinitionView, _>(
        &mut functions,
        rank_of,
        Ghost(|f: FunctionDefinition| f@),
        Ghost(definition_order()),
    );
    match read_surface(nodes, source, &functions) {
        Err(error) => Err(error),
        Ok(Surface { names, symbols, modules }) => Ok(
            SourceAnalysis {
                language: Some(language),
                functions,
                exports: names,
                exported_symbols: symbols,
                re_exported_modules: modules,
                diagnostics,
            },
        ),
    }
}

/// The analysis of a source that is not UTF-8.
pub open spec fn not_utf8_analysis(language: Language, source: Seq<u8>) -> AnalysisView {
    AnalysisView {
        language: Some(language),
        functions: Seq::empty(),
        surface: SurfaceView::empty(),
        diagnostics: seq![
            LanguageDiagnosticView {
                code: LanguageDiagnosticCode::InvalidUtf8,
                severity: DiagnosticSeverity::Error,
                message: "source is not valid UTF-8: "@ + utf8_fault(source),
                range: None,
            },
        ],
    }
}

/// What an analyzer reads of a source: that it is no text, or the functions of
/// its syntax tree.
pub open spec fn parsed_analysis(language: Language, source: Seq<u8>) -> Result<AnalysisView, ErrorView> {
    if !valid_utf8(source) {
        Ok(not_utf8_analysis(language, source))
    } else {
        match syntax_tree(language, decode_utf8(source)) {
            None => Err(ErrorView::Language("tree-sitter returned no tree"@)),
            Some(nodes) => inventory_of(language, decode_utf8(source), nodes),
        }
    }
}

/// What is read of a source: its grammar has to load first.
pub open spec fn source_analysis(language: Language, source: Seq<u8>) -> Result<AnalysisView, ErrorView> {
    match grammar_fault(language) {
        Some(fault) => Err(ErrorView::Language("load TypeScript grammar: "@ + fault)),
        None => parsed_analysis(language, source),
    }
}

pub struct TypeScriptAnalyzer {
    pub language: Language,
}

impl TypeScriptAnalyzer {
    /// Create a TypeScript or TSX analyzer; fails when the grammar cannot be
    /// loaded.
    pub fn new(language: Language) -> (r: Result<Self, DiffScopeError>)
        ensures
            match r {
                Ok(analyzer) => analyzer.language == language && grammar_fault(language) is None,
                Err(error) => grammar_fault(language) is Some && error@ == ErrorView::Language(
                    "load TypeScript grammar: "@ + grammar_fault(language)->0,
                ),
            },
    {
        match load_grammar(language) {
            None => Ok(TypeScriptAnalyzer { language }),
            Some(fault) => Err(DiffScopeError::Language(join2("load TypeScript grammar: ", fault.as_str()))),
        }
    }

    /// Analyze a TypeScript source blob; fails when no syntax tree is produced
    /// or a count or coordinate of the source does not fit 32 bits.
    pub fn analyze(&self, source: &[u8]) -> (r: Result<SourceAnalysis, DiffScopeError>)
        ensures
            crate::languages::analysis_outcome(r) == parsed_analysis(self.language, source@),
    {
        let text = match decode(source) {
            Ok(text) => text,
            Err(fault) => {
                return Ok(
                    crate::languages::diagnosed(
                        Some(self.language),
                        LanguageDiagnosticCode::InvalidUtf8,
                        DiagnosticSeverity::Error,
                        join2("source is not valid UTF-8: ", fault.as_str()),
                    ),
                );
            },
        };
        match parse_source(self.language, text.as_str()) {
            None => Err(DiffScopeError::Language("tree-sitter returned no tree".to_owned())),
            Some(nodes) => take_inventory(self.language, text.as_str(), &nodes),
        }
    }
}

} // verus!

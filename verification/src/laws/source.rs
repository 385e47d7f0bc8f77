//! What is read of a source.

use vstd::prelude::*;

use crate::collections::lemma_arranged_keeps;
use crate::languages::syntax::{child, lemma_shallower, node_source, parent, NodeView};
use crate::languages::typescript::{
    call_segment, called, calls_before, calls_of, cleaned, cognitive, collected_from, cyclomatic, definition_order, filled, function_kind, given_name, assigned_name, inventory_of, is_function, measured, own_name,
    scope, subtree_end, uncommented, nesting, Collected, Mode,
};
use crate::languages::{language_of, last_name, extension, DefinitionView, FunctionKind, Language};
use crate::laws::complexity::{belongs, encloses, lemma_nesting, lemma_subtree};
use crate::laws::counting::{how_many, lemma_counts_settle, lemma_how_many_same};
use crate::laws::words::{lacks, lemma_path_splits, path_to, plain};
use crate::order::{by_rank, lemma_same_multiset};
use crate::text::{decimal, is_space, lemma_last_of, lemma_span_holds, lines, other_than, span, spaces, trim_by, trim_end_by};
use crate::ErrorView;

verus! {

/// The condition of a place that a character stands there.
pub open spec fn is_at(s: Seq<char>, c: char) -> spec_fn(int) -> bool {
    |i: int| s[i] == c
}

/// How often a character stands in a text.
pub open spec fn occurrences(s: Seq<char>, c: char) -> nat {
    how_many(s.len() as int, is_at(s, c))
}

proof fn lemma_occurrences_join(a: Seq<char>, b: Seq<char>, c: char)
    ensures
        occurrences(a + b, c) == occurrences(a, c) + occurrences(b, c),
    decreases b.len(),
{
    if b.len() == 0 {
        assert(a + b =~= a);
    } else {
        let shorter = b.drop_last();
        lemma_occurrences_join(a, shorter, c);
        let whole = a + b;
        let less = a + shorter;
        lemma_how_many_same(whole.len() - 1, is_at(whole, c), is_at(less, c));
        lemma_how_many_same(b.len() - 1, is_at(b, c), is_at(shorter, c));
        assert(whole[whole.len() - 1] == b[b.len() - 1]);
    }
}

proof fn lemma_no_occurrence(s: Seq<char>, c: char)
    requires
        lacks(s, c),
    ensures
        occurrences(s, c) == 0,
{
    crate::laws::counting::lemma_how_many_none(s.len() as int, is_at(s, c));
}

/// A text has a line for every newline, and one more where something follows
/// the last.
pub proof fn lemma_lines_are_counted(s: Seq<char>)
    ensures
        lines(s).len() == occurrences(s, '\n') + if s.len() > 0 && s.last() != '\n' {
            1nat
        } else {
            0
        },
    decreases s.len(),
{
    if s.len() > 0 {
        let n = span(s, other_than('\n'));
        lemma_span_holds(s, other_than('\n'));
        let head = s.take(n as int);
        assert(lacks(head, '\n')) by {
            assert forall|i: int| 0 <= i < head.len() implies #[trigger] head[i] != '\n' by {
                assert(other_than('\n')(s[i]));
            }
        }
        lemma_no_occurrence(head, '\n');
        if n < s.len() {
            let rest = s.skip(n as int + 1);
            lemma_lines_are_counted(rest);
            let end = seq!['\n'];
            assert(s[n as int] == '\n') by {
                assert(!other_than('\n')(s[n as int]));
            }
            assert(s =~= head + end + rest);
            lemma_occurrences_join(head, end, '\n');
            lemma_occurrences_join(head + end, rest, '\n');
            assert(occurrences(end, '\n') == 1) by {
                reveal_with_fuel(how_many, 2);
            }
            if rest.len() > 0 {
                assert(rest.last() == s.last());
            }
        } else {
            assert(head =~= s);
        }
    }
}

/// Whether a text holds neither a quotation mark nor a slash.
pub open spec fn is_bare(code: Seq<char>) -> bool {
    lacks(code, '\'') && lacks(code, '"') && lacks(code, '`') && lacks(code, '/')
}

/// Code outside comments is left as it is.
pub proof fn lemma_code_is_kept(code: Seq<char>, rest: Seq<char>)
    requires
        is_bare(code),
    ensures
        uncommented(code + rest, Mode::Code) == code + uncommented(rest, Mode::Code),
    decreases code.len(),
{
    if code.len() == 0 {
        assert(code + rest =~= rest);
        assert(code + uncommented(rest, Mode::Code) =~= uncommented(rest, Mode::Code));
    } else {
        let s = code + rest;
        let shorter = code.drop_first();
        assert(is_bare(shorter)) by {
            assert forall|i: int| 0 <= i < shorter.len() implies #[trigger] shorter[i] == code[i + 1] by {}
        }
        lemma_code_is_kept(shorter, rest);
        assert(s[0] == code[0]);
        assert(s.drop_first() =~= shorter + rest);
        assert(seq![code[0]] + (shorter + uncommented(rest, Mode::Code)) =~= code + uncommented(rest, Mode::Code));
    }
}

/// As many spaces.
pub open spec fn blanks(n: nat) -> Seq<char> {
    Seq::new(n, |i: int| ' ')
}

proof fn lemma_in_line_comment(text: Seq<char>, rest: Seq<char>)
    requires
        lacks(text, '\n'),
    ensures
        uncommented(text + seq!['\n'] + rest, Mode::LineComment) == blanks(text.len()) + seq!['\n'] + uncommented(rest, Mode::Code),
    decreases text.len(),
{
    let s = text + seq!['\n'] + rest;
    if text.len() == 0 {
        assert(s[0] == '\n');
        assert(s.drop_first() =~= rest);
        assert(blanks(0) + seq!['\n'] + uncommented(rest, Mode::Code) =~= seq!['\n'] + uncommented(rest, Mode::Code));
    } else {
        let shorter = text.drop_first();
        assert(lacks(shorter, '\n')) by {
            assert forall|i: int| 0 <= i < shorter.len() implies #[trigger] shorter[i] != '\n' by {
                assert(shorter[i] == text[i + 1]);
            }
        }
        lemma_in_line_comment(shorter, rest);
        assert(s[0] == text[0]);
        assert(s.drop_first() =~= shorter + seq!['\n'] + rest);
        assert(seq![' '] + (blanks(shorter.len()) + seq!['\n'] + uncommented(rest, Mode::Code)) =~= blanks(text.len()) + seq!['\n'] + uncommented(
            rest,
            Mode::Code,
        ));
    }
}

/// A comment behind two slashes is blank up to the end of its line, whatever
/// it says.
pub proof fn lemma_line_comment_is_blank(text: Seq<char>, rest: Seq<char>)
    requires
        lacks(text, '\n'),
    ensures
        uncommented(seq!['/', '/'] + text + seq!['\n'] + rest, Mode::Code) == blanks(2 + text.len()) + seq!['\n'] + uncommented(rest, Mode::Code),
{
    let s = seq!['/', '/'] + text + seq!['\n'] + rest;
    lemma_in_line_comment(text, rest);
    assert(s[0] == '/' && s[1] == '/');
    assert(s.skip(2) =~= text + seq!['\n'] + rest);
    assert(seq![' ', ' '] + (blanks(text.len()) + seq!['\n'] + uncommented(rest, Mode::Code)) =~= blanks(2 + text.len()) + seq!['\n'] + uncommented(
        rest,
        Mode::Code,
    ));
}

/// A text with everything but its newlines made a space.
pub open spec fn blanked(text: Seq<char>) -> Seq<char> {
    text.map_values(
        |c: char|
            if c == '\n' {
                '\n'
            } else {
                ' '
            },
    )
}

proof fn lemma_in_block_comment(text: Seq<char>, rest: Seq<char>)
    requires
        lacks(text, '*'),
    ensures
        uncommented(text + seq!['*', '/'] + rest, Mode::BlockComment) == blanked(text) + blanks(2) + uncommented(rest, Mode::Code),
    decreases text.len(),
{
    let s = text + seq!['*', '/'] + rest;
    if text.len() == 0 {
        assert(s[0] == '*' && s[1] == '/');
        assert(s.skip(2) =~= rest);
        assert(blanked(text) + blanks(2) + uncommented(rest, Mode::Code) =~= seq![' ', ' '] + uncommented(rest, Mode::Code));
    } else {
        let shorter = text.drop_first();
        assert(lacks(shorter, '*')) by {
            assert forall|i: int| 0 <= i < shorter.len() implies #[trigger] shorter[i] != '*' by {
                assert(shorter[i] == text[i + 1]);
            }
        }
        lemma_in_block_comment(shorter, rest);
        assert(s[0] == text[0]);
        assert(s.drop_first() =~= shorter + seq!['*', '/'] + rest);
        assert(seq![blanked(text)[0]] + (blanked(shorter) + blanks(2) + uncommented(rest, Mode::Code)) =~= blanked(text) + blanks(2) + uncommented(
            rest,
            Mode::Code,
        ));
    }
}

/// A comment between `/*` and `*/` is blank but for its newlines, whatever it
/// says.
pub proof fn lemma_block_comment_is_blank(text: Seq<char>, rest: Seq<char>)
    requires
        lacks(text, '*'),
    ensures
        uncommented(seq!['/', '*'] + text + seq!['*', '/'] + rest, Mode::Code) == blanks(2) + blanked(text) + blanks(2) + uncommented(rest, Mode::Code),
{
    let s = seq!['/', '*'] + text + seq!['*', '/'] + rest;
    lemma_in_block_comment(text, rest);
    assert(s[0] == '/' && s[1] == '*');
    assert(s.skip(2) =~= text + seq!['*', '/'] + rest);
    assert(seq![' ', ' '] + (blanked(text) + blanks(2) + uncommented(rest, Mode::Code)) =~= blanks(2) + blanked(text) + blanks(2) + uncommented(
        rest,
        Mode::Code,
    ));
}

proof fn lemma_in_string(quote: char, text: Seq<char>, rest: Seq<char>)
    requires
        lacks(text, quote),
        lacks(text, '\\'),
        quote != '\\',
    ensures
        uncommented(text + seq![quote] + rest, Mode::Text(quote)) == text + seq![quote] + uncommented(rest, Mode::Code),
    decreases text.len(),
{
    let s = text + seq![quote] + rest;
    if text.len() == 0 {
        assert(s[0] == quote);
        assert(s.drop_first() =~= rest);
        assert(text + seq![quote] + uncommented(rest, Mode::Code) =~= seq![quote] + uncommented(rest, Mode::Code));
    } else {
        let shorter = text.drop_first();
        assert(lacks(shorter, quote) && lacks(shorter, '\\')) by {
            assert forall|i: int| 0 <= i < shorter.len() implies #[trigger] shorter[i] == text[i + 1] by {}
        }
        lemma_in_string(quote, shorter, rest);
        assert(s[0] == text[0]);
        assert(s.drop_first() =~= shorter + seq![quote] + rest);
        assert(seq![text[0]] + (shorter + seq![quote] + uncommented(rest, Mode::Code)) =~= text + seq![quote] + uncommented(rest, Mode::Code));
    }
}

/// What looks like a comment inside a string is kept.
pub proof fn lemma_string_is_kept(quote: char, text: Seq<char>, rest: Seq<char>)
    requires
        quote == '\'' || quote == '"' || quote == '`',
        lacks(text, quote),
        lacks(text, '\\'),
    ensures
        uncommented(seq![quote] + text + seq![quote] + rest, Mode::Code) == seq![quote] + text + seq![quote] + uncommented(rest, Mode::Code),
{
    let s = seq![quote] + text + seq![quote] + rest;
    lemma_in_string(quote, text, rest);
    assert(s[0] == quote);
    assert(s.drop_first() =~= text + seq![quote] + rest);
    assert(seq![quote] + (text + seq![quote] + uncommented(rest, Mode::Code)) =~= seq![quote] + text + seq![quote] + uncommented(rest, Mode::Code));
}

/// Whether a line holds something that is not white space.
pub open spec fn says_something(line: Seq<char>) -> bool {
    exists|k: int| 0 <= k < line.len() && !is_space(#[trigger] line[k])
}

proof fn lemma_trimmed_end(s: Seq<char>)
    ensures
        trim_end_by(s, spaces()).len() > 0 <==> says_something(s),
    decreases s.len(),
{
    if s.len() > 0 {
        if spaces()(s.last()) {
            let shorter = s.drop_last();
            lemma_trimmed_end(shorter);
            if says_something(s) {
                let k = choose|k: int| 0 <= k < s.len() && !is_space(#[trigger] s[k]);
                assert(shorter[k] == s[k]);
            }
            if says_something(shorter) {
                let k = choose|k: int| 0 <= k < shorter.len() && !is_space(#[trigger] shorter[k]);
                assert(s[k] == shorter[k]);
            }
        } else {
            assert(!is_space(s[s.len() - 1]));
        }
    }
}

proof fn lemma_trimmed(s: Seq<char>)
    ensures
        trim_by(s, spaces()).len() > 0 <==> says_something(s),
{
    let n = span(s, spaces());
    lemma_span_holds(s, spaces());
    let rest = s.skip(n as int);
    lemma_trimmed_end(rest);
    if says_something(s) {
        let k = choose|k: int| 0 <= k < s.len() && !is_space(#[trigger] s[k]);
        if k < n {
            assert(spaces()(s[k]));
        }
        assert(rest[k - n] == s[k]);
    }
    if says_something(rest) {
        let k = choose|k: int| 0 <= k < rest.len() && !is_space(#[trigger] rest[k]);
        assert(s[k + n] == rest[k]);
    }
}

/// The lines that are counted as source are those that hold something.
pub proof fn lemma_filled_lines_say_something(all: Seq<Seq<char>>)
    ensures
        filled(all) == how_many(all.len() as int, |i: int| says_something(all[i])),
    decreases all.len(),
{
    if all.len() > 0 {
        let shorter = all.drop_last();
        lemma_filled_lines_say_something(shorter);
        lemma_how_many_same(all.len() - 1, |i: int| says_something(all[i]), |i: int| says_something(shorter[i]));
        lemma_trimmed(all.last());
    }
}

/// What is measured of a function: the lines of its source, those of them that
/// say something once comments are gone, and its two complexities.
pub proof fn lemma_metrics_measure(nodes: Seq<NodeView>, i: int, source: Seq<char>)
    requires
        measured(nodes, i, source) is Ok,
    ensures
        node_source(nodes, i, source) is Some,
        ({
            let text = node_source(nodes, i, source)->0;
            let bare = lines(uncommented(text, Mode::Code));
            let metrics = measured(nodes, i, source)->Ok_0;
            &&& metrics.physical_loc == occurrences(text, '\n') + if text.len() > 0 && text.last() != '\n' {
                1nat
            } else {
                0
            }
            &&& metrics.source_loc == how_many(bare.len() as int, |k: int| says_something(bare[k]))
            &&& metrics.cyclomatic_complexity == cyclomatic(nodes, i)
            &&& metrics.cognitive_complexity == cognitive(nodes, i)
        }),
{
    let text = node_source(nodes, i, source)->0;
    lemma_lines_are_counted(text);
    lemma_filled_lines_say_something(lines(uncommented(text, Mode::Code)));
}

/// Whether a node is written as a function.
pub open spec fn writes_function(node: NodeView) -> bool {
    ||| node.kind == "function_declaration"@
    ||| node.kind == "generator_function_declaration"@
    ||| node.kind == "function_expression"@
    ||| node.kind == "generator_function"@
    ||| node.kind == "method_definition"@
    ||| node.kind == "abstract_method_signature"@
    ||| node.kind == "method_signature"@
    ||| node.kind == "arrow_function"@
}

/// Whether a definition says what the node at a place is.
pub open spec fn describes(d: DefinitionView, language: Language, nodes: Seq<NodeView>, i: int, source: Seq<char>) -> bool {
    let node = nodes[i];
    let member = node.kind == "method_definition"@ || node.kind == "abstract_method_signature"@ || node.kind == "method_signature"@;
    &&& d.language == language
    &&& d.range.start_line == node.start_row + 1
    &&& d.range.start_column == node.start_column
    &&& d.range.end_line == node.end_row + 1
    &&& d.range.end_column == node.end_column
    &&& measured(nodes, i, source) == Ok::<crate::metrics::FunctionMetrics, ErrorView>(d.metrics)
    &&& calls_of(nodes, i, source) == Ok::<Seq<crate::languages::CallView>, ErrorView>(d.calls)
    &&& node_source(nodes, i, source) matches Some(text) ==> d.body_hash == crate::languages::text_hash(text)
    &&& match given_name(nodes, i, source, d.kind) {
        Some(name) => d.qualified_name == scope(nodes, parent(nodes, i), source, false) + name,
        None => exists|number: nat|
            number >= 1 && d.qualified_name == scope(nodes, parent(nodes, i), source, true) + "<anonymous>#"@ + #[trigger] decimal(number),
    }
    &&& d.kind == if member && own_name(nodes, i, source) == Some("constructor"@) {
        FunctionKind::Constructor
    } else if member {
        FunctionKind::Method
    } else if node.kind == "arrow_function"@ {
        FunctionKind::ArrowFunction
    } else {
        FunctionKind::Function
    }
}

/// Whether the first function that starts where the node at a place does is
/// that node.
pub open spec fn starts_first(nodes: Seq<NodeView>, i: int) -> bool {
    0 <= i < nodes.len() && writes_function(nodes[i]) && forall|k: int|
        0 <= k < i && writes_function(#[trigger] nodes[k]) ==> nodes[k].start_byte != nodes[i].start_byte
}

/// Whether a collection holds the functions of the nodes before one, each
/// standing for its node.
spec fn holds_before(state: Collected, nodes: Seq<NodeView>, n: int, stands: spec_fn(DefinitionView, int) -> bool) -> bool {
    &&& forall|k: int|
        0 <= k < state.functions.len() ==> exists|i: int| i < n && #[trigger] starts_first(nodes, i) && stands(#[trigger] state.functions[k], i)
    &&& forall|i: int|
        i < n && #[trigger] starts_first(nodes, i) ==> exists|k: int| 0 <= k < state.functions.len() && stands(#[trigger] state.functions[k], i)
    &&& forall|at: usize| #[trigger]
        state.starts.contains(at) <==> exists|i: int| 0 <= i < n && writes_function(#[trigger] nodes[i]) && nodes[i].start_byte == at
}

/// The condition of a definition that it describes a node.
spec fn describing(language: Language, nodes: Seq<NodeView>, source: Seq<char>) -> spec_fn(DefinitionView, int) -> bool {
    |d: DefinitionView, i: int| describes(d, language, nodes, i, source)
}

proof fn lemma_after_node(state: Collected, language: Language, nodes: Seq<NodeView>, n: int, source: Seq<char>)
    requires
        0 <= n < nodes.len(),
        state.after_node(language, nodes, n, source) is Ok,
    ensures
        ({
            let next = state.after_node(language, nodes, n, source)->Ok_0;
            if writes_function(nodes[n]) && !state.starts.contains(nodes[n].start_byte) {
                &&& next.functions.len() == state.functions.len() + 1
                &&& next.functions.drop_last() == state.functions
                &&& describes(next.functions.last(), language, nodes, n, source)
                &&& next.starts == state.starts.insert(nodes[n].start_byte)
            } else {
                next == state
            }
        }),
{
    let next = state.after_node(language, nodes, n, source)->Ok_0;
    assert(function_kind(nodes, n, source) is Some <==> writes_function(nodes[n]));
    if writes_function(nodes[n]) && !state.starts.contains(nodes[n].start_byte) {
        assert(next.functions.drop_last() =~= state.functions);
    }
}

proof fn lemma_step(state: Collected, next: Collected, nodes: Seq<NodeView>, n: int, stands: spec_fn(DefinitionView, int) -> bool)
    requires
        0 <= n < nodes.len(),
        holds_before(state, nodes, n, stands),
        if writes_function(nodes[n]) && !state.starts.contains(nodes[n].start_byte) {
            &&& next.functions.len() == state.functions.len() + 1
            &&& next.functions.drop_last() == state.functions
            &&& stands(next.functions.last(), n)
            &&& next.starts == state.starts.insert(nodes[n].start_byte)
        } else {
            next == state
        },
    ensures
        holds_before(next, nodes, n + 1, stands),
{
    let node = nodes[n];
    let fresh = writes_function(node) && !state.starts.contains(node.start_byte);
    assert(fresh <==> starts_first(nodes, n)) by {
        if state.starts.contains(node.start_byte) {
            let i = choose|i: int| 0 <= i < n && writes_function(#[trigger] nodes[i]) && nodes[i].start_byte == node.start_byte;
            assert(writes_function(nodes[i]));
        }
        if writes_function(node) && !starts_first(nodes, n) {
            let k = choose|k: int| 0 <= k < n && writes_function(#[trigger] nodes[k]) && nodes[k].start_byte == node.start_byte;
            assert(state.starts.contains(nodes[k].start_byte));
        }
    }
    assert forall|k: int| 0 <= k < next.functions.len() implies exists|i: int|
        i < n + 1 && #[trigger] starts_first(nodes, i) && stands(#[trigger] next.functions[k], i) by {
        if k < state.functions.len() {
            assert(next.functions[k] == state.functions[k]) by {
                if fresh {
                    assert(next.functions.drop_last()[k] == next.functions[k]);
                }
            }
            let i = choose|i: int| i < n && #[trigger] starts_first(nodes, i) && stands(state.functions[k], i);
            assert(starts_first(nodes, i));
        } else {
            assert(starts_first(nodes, n) && stands(next.functions[k], n));
        }
    }
    assert forall|i: int| i < n + 1 && #[trigger] starts_first(nodes, i) implies exists|k: int|
        0 <= k < next.functions.len() && stands(#[trigger] next.functions[k], i) by {
        if i < n {
            let k = choose|k: int| 0 <= k < state.functions.len() && stands(#[trigger] state.functions[k], i);
            assert(next.functions[k] == state.functions[k]) by {
                if fresh {
                    assert(next.functions.drop_last()[k] == next.functions[k]);
                }
            }
        } else {
            assert(stands(next.functions[next.functions.len() - 1], i));
        }
    }
    assert forall|at: usize| #[trigger] next.starts.contains(at) <==> exists|i: int|
        0 <= i < n + 1 && writes_function(#[trigger] nodes[i]) && nodes[i].start_byte == at by {
        if next.starts.contains(at) {
            if state.starts.contains(at) {
                let i = choose|i: int| 0 <= i < n && writes_function(#[trigger] nodes[i]) && nodes[i].start_byte == at;
                assert(writes_function(nodes[i]));
            } else {
                assert(writes_function(nodes[n]));
            }
        }
        if exists|i: int| 0 <= i < n + 1 && writes_function(#[trigger] nodes[i]) && nodes[i].start_byte == at {
            let i = choose|i: int| 0 <= i < n + 1 && writes_function(#[trigger] nodes[i]) && nodes[i].start_byte == at;
            if i < n {
                assert(state.starts.contains(at));
            }
        }
    }
}

proof fn lemma_collects(state: Collected, language: Language, nodes: Seq<NodeView>, n: int, source: Seq<char>)
    requires
        0 <= n <= nodes.len(),
        holds_before(state, nodes, n, describing(language, nodes, source)),
        collected_from(state, language, nodes, n, source) is Ok,
    ensures
        holds_before(collected_from(state, language, nodes, n, source)->Ok_0, nodes, nodes.len() as int, describing(language, nodes, source)),
    decreases nodes.len() - n,
{
    if n < nodes.len() {
        let next = state.after_node(language, nodes, n, source)->Ok_0;
        lemma_after_node(state, language, nodes, n, source);
        lemma_step(state, next, nodes, n, describing(language, nodes, source));
        lemma_collects(next, language, nodes, n + 1, source);
    }
}

/// The functions of a source are its function nodes, one for each place where
/// one starts, each described by its node; every one of them is listed.
pub proof fn lemma_inventory_lists_every_function(language: Language, source: Seq<char>, nodes: Seq<NodeView>)
    requires
        inventory_of(language, source, nodes) is Ok,
    ensures
        forall|d: DefinitionView| #[trigger]
            inventory_of(language, source, nodes)->Ok_0.functions.contains(d) ==> exists|i: int|
                #[trigger] starts_first(nodes, i) && describes(d, language, nodes, i, source),
        forall|i: int| #[trigger]
            starts_first(nodes, i) ==> exists|d: DefinitionView|
                inventory_of(language, source, nodes)->Ok_0.functions.contains(d) && #[trigger] describes(d, language, nodes, i, source),
{
    let all = collected_from(Collected::initial(), language, nodes, 0, source)->Ok_0;
    let stands = describing(language, nodes, source);
    assert(holds_before(Collected::initial(), nodes, 0, stands));
    lemma_collects(Collected::initial(), language, nodes, 0, source);
    let out = inventory_of(language, source, nodes)->Ok_0.functions;
    lemma_arranged_keeps(all.functions, by_rank(definition_order()));
    lemma_same_multiset(out, all.functions);
    assert forall|d: DefinitionView| #[trigger] out.contains(d) <==> all.functions.contains(d) by {
        assert(out.to_set().contains(d) <==> all.functions.to_set().contains(d));
    }
    assert forall|d: DefinitionView| #[trigger] out.contains(d) implies exists|i: int|
        #[trigger] starts_first(nodes, i) && describes(d, language, nodes, i, source) by {
        let k = choose|k: int| 0 <= k < all.functions.len() && all.functions[k] == d;
        let i = choose|i: int| i < nodes.len() && #[trigger] starts_first(nodes, i) && stands(all.functions[k], i);
        assert(starts_first(nodes, i) && describes(d, language, nodes, i, source));
    }
    assert forall|i: int| #[trigger] starts_first(nodes, i) implies exists|d: DefinitionView|
        out.contains(d) && #[trigger] describes(d, language, nodes, i, source) by {
        let k = choose|k: int| 0 <= k < all.functions.len() && stands(#[trigger] all.functions[k], i);
        let d = all.functions[k];
        assert(all.functions.contains(d));
        assert(out.contains(d) && describes(d, language, nodes, i, source));
    }
}

/// The language of a file follows from its extension: `ts`, `mts` and `cts` are
/// TypeScript, `tsx` is TSX, and no other is read.
pub proof fn lemma_language_by_extension(directories: Seq<Seq<char>>, base: Seq<char>, ending: Seq<char>)
    requires
        plain(directories, base + seq!['.'] + ending),
        base.len() > 0,
        ending.len() > 0,
        lacks(ending, '.'),
    ensures
        language_of(path_to(directories, base + seq!['.'] + ending)) == Some(Language::TypeScript) <==> ending == "ts"@ || ending == "mts"@ || ending
            == "cts"@,
        language_of(path_to(directories, base + seq!['.'] + ending)) == Some(Language::Tsx) <==> ending == "tsx"@,
{
    let name = base + seq!['.'] + ending;
    let path = path_to(directories, name);
    lemma_path_splits(directories, name);
    reveal_strlit(".");
    reveal_strlit("..");
    assert(name.len() >= 3);
    assert(last_name(directories.push(name)) == Some(name));
    let at = base.len();
    assert forall|k: int| at < k < name.len() implies #[trigger] name[k] != '.' by {
        assert(name[k] == ending[k - at - 1]);
    }
    lemma_last_of(name, '.', at);
    assert(name.skip(at as int + 1) =~= ending);
    assert(extension(path) == Some(ending));
    reveal_strlit("ts");
    reveal_strlit("mts");
    reveal_strlit("cts");
    reveal_strlit("tsx");
}

/// What a node adds to the names of what it holds: its own name where it is a
/// class, an interface or a namespace, and, for a function without a name, what
/// a call says of a callback. Each is followed by a dot, the outermost first.
pub proof fn lemma_scope_names_what_encloses(nodes: Seq<NodeView>, i: int, source: Seq<char>, calls: bool)
    requires
        0 <= i < nodes.len(),
    ensures
        ({
            let outer = scope(nodes, parent(nodes, i), source, calls);
            let kind = nodes[i].kind;
            scope(nodes, Some(i), source, calls) == if kind == "class_declaration"@ || kind == "abstract_class_declaration"@ || kind
                == "interface_declaration"@ || kind == "module"@ || kind == "internal_module"@ {
                match own_name(nodes, i, source) {
                    Some(name) => outer + name + seq!['.'],
                    None => outer,
                }
            } else if calls && kind == "call_expression"@ {
                match call_segment(nodes, i, source) {
                    Some(segment) => outer + segment + seq!['.'],
                    None => outer,
                }
            } else {
                outer
            }
        }),
        scope(nodes, None, source, calls).len() == 0,
{
    lemma_shallower(nodes, i - 1, nodes[i].depth);
    reveal_strlit(".");
    assert("."@ =~= seq!['.']);
}

/// A function without a name of its own is named by the nearest declarator,
/// assignment, property or field around it, and by none beyond the nearest
/// block, class body or program.
pub proof fn lemma_assigned_name_is_nearest(nodes: Seq<NodeView>, i: int, source: Seq<char>)
    requires
        0 <= i < nodes.len(),
    ensures
        ({
            let kind = nodes[i].kind;
            let holds = kind == "variable_declarator"@ || kind == "assignment_expression"@ || kind == "pair"@ || kind == "public_field_definition"@;
            let named = if child(nodes, i, "name"@) is Some {
                child(nodes, i, "name"@)
            } else if child(nodes, i, "left"@) is Some {
                child(nodes, i, "left"@)
            } else {
                child(nodes, i, "key"@)
            };
            assigned_name(nodes, Some(i), source) == if holds && cleaned(nodes, named, source) is Some {
                cleaned(nodes, named, source)
            } else if kind == "statement_block"@ || kind == "program"@ || kind == "class_body"@ {
                None
            } else {
                assigned_name(nodes, parent(nodes, i), source)
            }
        }),
{
    lemma_shallower(nodes, i - 1, nodes[i].depth);
}

/// A constructor is called so; another function has its own name, or, where it
/// is a function or an arrow function, the one it is assigned to.
pub proof fn lemma_given_name(nodes: Seq<NodeView>, i: int, source: Seq<char>)
    ensures
        given_name(nodes, i, source, FunctionKind::Constructor) == Some("constructor"@),
        own_name(nodes, i, source) is Some ==> given_name(nodes, i, source, FunctionKind::Function) == own_name(nodes, i, source) && given_name(
            nodes,
            i,
            source,
            FunctionKind::ArrowFunction,
        ) == own_name(nodes, i, source),
        own_name(nodes, i, source) is None ==> given_name(nodes, i, source, FunctionKind::Function) == assigned_name(
            nodes,
            parent(nodes, i),
            source,
        ) && given_name(nodes, i, source, FunctionKind::ArrowFunction) == assigned_name(nodes, parent(nodes, i), source),
        given_name(nodes, i, source, FunctionKind::Method) == own_name(nodes, i, source),
{
}

/// A call names an identifier, a property of a name, `this` or `super`, or a
/// string in brackets behind one of those; any other names nothing.
pub proof fn lemma_called_name(nodes: Seq<NodeView>, i: int, source: Seq<char>)
    requires
        called(nodes, i, source) is Some,
    ensures
        nodes[i].kind == "call_expression"@,
        child(nodes, i, "function"@) is Some,
        ({
            let callee = child(nodes, i, "function"@)->0;
            let (name, receiver) = called(nodes, i, source)->0;
            match receiver {
                None => nodes[callee].kind == "identifier"@ && node_source(nodes, callee, source) == Some(name),
                Some(on) => {
                    let object = child(nodes, callee, "object"@);
                    let member = if nodes[callee].kind == "member_expression"@ {
                        child(nodes, callee, "property"@)
                    } else {
                        child(nodes, callee, "index"@)
                    };
                    &&& nodes[callee].kind == "member_expression"@ || nodes[callee].kind == "subscript_expression"@
                    &&& object is Some && member is Some
                    &&& node_source(nodes, object->0, source) == Some(on)
                    &&& nodes[object->0].kind == "identifier"@ || nodes[object->0].kind == "this"@ || nodes[object->0].kind == "super"@
                    &&& cleaned(nodes, member, source) == Some(name)
                    &&& nodes[member->0].kind == if nodes[callee].kind == "member_expression"@ {
                        "property_identifier"@
                    } else {
                        "string"@
                    }
                },
            }
        }),
{
    reveal_strlit("member_expression");
    reveal_strlit("subscript_expression");
    reveal_strlit("identifier");
    assert("member_expression"@.len() != "identifier"@.len() && "subscript_expression"@.len() != "identifier"@.len());
    assert("member_expression"@.len() != "subscript_expression"@.len());
}

proof fn lemma_calls_before(nodes: Seq<NodeView>, function: int, to: int, source: Seq<char>, counted: spec_fn(int) -> bool)
    requires
        0 <= function < to <= nodes.len(),
        calls_before(nodes, function, to, source) is Ok,
        forall|i: int| 0 <= i <= function ==> !#[trigger] counted(i),
        forall|i: int| function < i < to ==> (#[trigger] counted(i) <==> nesting(nodes, function, i) is Some && called(nodes, i, source) is Some),
    ensures
        calls_before(nodes, function, to, source)->Ok_0.len() == how_many(to, counted),
    decreases to - function,
{
    if to <= function + 1 {
        crate::laws::counting::lemma_how_many_none(to, counted);
    } else {
        lemma_calls_before(nodes, function, to - 1, source, counted);
        assert(counted(to - 1) <==> nesting(nodes, function, to - 1) is Some && called(nodes, to - 1, source) is Some);
    }
}

/// The calls of a function are as many as the named calls written in it and not
/// in a function inside it.
pub proof fn lemma_calls_belong(nodes: Seq<NodeView>, function: int, source: Seq<char>, is_one: spec_fn(Seq<char>) -> bool)
    requires
        0 <= function < nodes.len(),
        calls_of(nodes, function, source) is Ok,
        forall|node: NodeView| is_one(node.kind) == #[trigger] writes_function(node),
    ensures
        calls_of(nodes, function, source)->Ok_0.len() == how_many(
            nodes.len() as int,
            |i: int| belongs(nodes, function, i, is_one) && called(nodes, i, source) is Some,
        ),
{
    let n = nodes.len() as int;
    let counted = |i: int| belongs(nodes, function, i, is_one) && called(nodes, i, source) is Some;
    let decides = |kind: Seq<char>| crate::languages::typescript::is_decision(kind);
    let any = nodes[0];
    assert forall|kind: Seq<char>| #[trigger] is_one(kind) == is_function(kind) by {
        assert(writes_function(NodeView { kind, ..any }) == is_one(kind));
    }
    assert forall|i: int| function < i < n implies (#[trigger] counted(i) <==> nesting(nodes, function, i) is Some && called(nodes, i, source) is Some) by {
        lemma_nesting(nodes, function, i, decides, is_one);
    }
    let end = subtree_end(nodes, function, function + 1);
    lemma_subtree(nodes, function, function + 1);
    lemma_calls_before(nodes, function, end, source, counted);
    assert forall|i: int| end <= i < n implies !#[trigger] counted(i) by {
        assert(!encloses(nodes, function, i));
    }
    lemma_counts_settle(end, n, counted, |i: int| 0nat);
}

} // verus!

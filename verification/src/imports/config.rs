//! The path aliases of a revision's `tsconfig.json`.

use vstd::prelude::*;
use vstd::utf8::encode_utf8;

use crate::collections::arranged;
use crate::imports::resolve::{alias_views, normalize, normalized, AliasView, PathAlias};
use crate::order::{
    arrange_by, by_rank, compare_numbers, lawful, lemma_arranged_ranked, lemma_lawful_by, lemma_lawful_flipped, lemma_lawful_otherwise,
    lemma_numbers_lawful, lemma_texts_lawful, number_rank, or_else, otherwise, ranked, strictly,
};
use crate::text::{chars_of, compare, is_space, other_than, space, span, text_of, text_rank, texts, Rank};

verus! {

/// How much of a text belongs to the string literal whose opening quote
/// precedes it, the closing quote counted; all of it where none closes.
pub open spec fn literal_tail(s: Seq<char>) -> nat
    decreases s.len(),
{
    if s.len() == 0 {
        0
    } else if s[0] == '"' {
        1
    } else if s[0] == '\\' && s.len() > 1 {
        2 + literal_tail(s.skip(2))
    } else {
        1 + literal_tail(s.skip(1))
    }
}

/// How long the string literal is that a text begins with.
pub open spec fn literal_len(s: Seq<char>) -> nat {
    1 + literal_tail(s.skip(1))
}

proof fn lemma_literal_fits(s: Seq<char>)
    ensures
        literal_tail(s) <= s.len(),
    decreases s.len(),
{
    if s.len() > 0 {
        if s[0] == '\\' && s.len() > 1 {
            lemma_literal_fits(s.skip(2));
        } else {
            lemma_literal_fits(s.skip(1));
        }
    }
}

/// Where the string literal ends that begins at a quote.
fn literal_end(chars: &Vec<char>, at: usize) -> (r: usize)
    requires
        at < chars.len(),
    ensures
        r == at + literal_len(chars@.skip(at as int)),
        at < r <= chars.len(),
{
    let ghost s = chars@;
    let ghost whole = s.skip(at as int);
    let mut i: usize = at + 1;
    assert(whole.skip(1) =~= s.skip(at + 1));
    while i < chars.len() && chars[i] != '"'
        invariant
            at < i <= chars.len(),
            s == chars@,
            i + literal_tail(s.skip(i as int)) == at + 1 + literal_tail(s.skip(at + 1)),
        decreases chars.len() - i,
    {
        let ghost rest = s.skip(i as int);
        assert(rest[0] == s[i as int]);
        if chars[i] == '\\' && i + 1 < chars.len() {
            assert(rest.skip(2) =~= s.skip(i + 2));
            i = i + 2;
        } else {
            assert(rest.skip(1) =~= s.skip(i + 1));
            i = i + 1;
        }
    }
    proof {
        if i < chars.len() {
            assert(s.skip(i as int)[0] == '"');
        }
    }
    if i < chars.len() {
        i + 1
    } else {
        i
    }
}

/// How much of a text a block comment's end closes: what precedes the first
/// `*/` and those two characters, or all of it where none stands there.
pub open spec fn block_tail(s: Seq<char>) -> nat
    decreases s.len(),
{
    if s.len() < 2 {
        s.len()
    } else if s[0] == '*' && s[1] == '/' {
        2
    } else {
        1 + block_tail(s.skip(1))
    }
}

proof fn lemma_block_fits(s: Seq<char>)
    ensures
        block_tail(s) <= s.len(),
    decreases s.len(),
{
    if s.len() >= 2 {
        lemma_block_fits(s.skip(1));
    }
}

fn block_end(chars: &Vec<char>, at: usize) -> (r: usize)
    requires
        at <= chars.len(),
    ensures
        r == at + block_tail(chars@.skip(at as int)),
        at <= r <= chars.len(),
{
    let ghost s = chars@;
    let mut i: usize = at;
    while chars.len() - i >= 2 && !(chars[i] == '*' && chars[i + 1] == '/')
        invariant
            at <= i <= chars.len(),
            s == chars@,
            i + block_tail(s.skip(i as int)) == at + block_tail(s.skip(at as int)),
        decreases chars.len() - i,
    {
        assert(s.skip(i as int).skip(1) =~= s.skip(i + 1));
        i = i + 1;
    }
    if chars.len() - i >= 2 {
        i + 2
    } else {
        chars.len()
    }
}

/// A text without the comments that stand outside its string literals. The
/// newline that ends a line comment stays.
pub open spec fn uncommented(s: Seq<char>) -> Seq<char>
    decreases s.len(),
    via uncommented_shrinks
{
    if s.len() == 0 {
        Seq::empty()
    } else if s[0] == '"' {
        s.take(literal_len(s) as int) + uncommented(s.skip(literal_len(s) as int))
    } else if s[0] == '/' && s.len() > 1 && s[1] == '/' {
        uncommented(s.skip(span(s, other_than('\n')) as int))
    } else if s[0] == '/' && s.len() > 1 && s[1] == '*' {
        uncommented(s.skip(2).skip(block_tail(s.skip(2)) as int))
    } else {
        seq![s[0]] + uncommented(s.skip(1))
    }
}

#[via_fn]
proof fn uncommented_shrinks(s: Seq<char>) {
    if s.len() > 0 {
        lemma_literal_fits(s.skip(1));
        if s.len() > 1 {
            lemma_block_fits(s.skip(2));
        }
        crate::text::lemma_span_holds(s, other_than('\n'));
    }
}

fn remove_block_and_line_comments(text: &str) -> (r: String)
    ensures
        r@ == uncommented(text@),
{
    let chars = chars_of(text);
    let ghost s = text@;
    let n: usize = chars.len();
    let mut out = String::new();
    let mut i: usize = 0;
    assert(s.skip(0) =~= s);
    assert(out@ + uncommented(s) =~= uncommented(s));
    while i < n
        invariant
            i <= n == chars.len(),
            chars@ == s,
            out@ + uncommented(s.skip(i as int)) == uncommented(s),
        decreases n - i,
    {
        let ghost rest = s.skip(i as int);
        let ghost so_far = out@;
        assert(rest[0] == s[i as int]);
        if chars[i] == '"' {
            let end = literal_end(&chars, i);
            let literal = text_of(&chars, i, end);
            out.append(literal.as_str());
            proof {
                assert(rest.take(end - i) =~= s.subrange(i as int, end as int));
                assert(rest.skip(end - i) =~= s.skip(end as int));
                assert(out@ + uncommented(s.skip(end as int)) =~= so_far + uncommented(rest));
            }
            i = end;
        } else if chars[i] == '/' && i + 1 < n && chars[i + 1] == '/' {
            let mut end: usize = i;
            while end < n && chars[end] != '\n'
                invariant
                    i <= end <= n == chars.len(),
                    chars@ == s,
                    rest == s.skip(i as int),
                    forall|k: int| 0 <= k < end - i ==> other_than('\n')(#[trigger] rest[k]),
                ensures
                    end < n ==> s[end as int] == '\n',
                decreases n - end,
            {
                end = end + 1;
            }
            proof {
                crate::text::lemma_span(rest, other_than('\n'), (end - i) as nat);
                assert(rest[0] == '/' && rest[1] == '/');
                assert(i < end);
                assert(rest.skip(end - i) =~= s.skip(end as int));
            }
            i = end;
        } else if chars[i] == '/' && i + 1 < n && chars[i + 1] == '*' {
            let end = block_end(&chars, i + 2);
            proof {
                assert(rest[0] == '/' && rest[1] == '*');
                assert(rest.skip(2) =~= s.skip(i + 2));
                assert(s.skip(i + 2).skip(end - i - 2) =~= s.skip(end as int));
            }
            i = end;
        } else {
            out.push(chars[i]);
            proof {
                assert(rest.skip(1) =~= s.skip(i + 1));
                assert(rest.len() > 1 ==> rest[1] == s[i + 1]);
                assert(out@ + uncommented(s.skip(i + 1)) =~= so_far + uncommented(rest));
            }
            i = i + 1;
        }
    }
    assert(s.skip(n as int) =~= Seq::<char>::empty());
    assert(out@ + uncommented(s.skip(n as int)) =~= out@);
    out
}

/// A comma where one is owed.
pub open spec fn owed(comma: bool) -> Seq<char> {
    if comma {
        seq![',']
    } else {
        Seq::empty()
    }
}

/// A text without the commas that nothing but white space separates from a
/// closing brace or bracket, or from the end. A comma outside a string literal
/// is held back, over white space, until what follows shows whether it stays.
pub open spec fn untrailed(s: Seq<char>, comma: bool) -> Seq<char>
    decreases s.len(),
    via untrailed_shrinks
{
    if s.len() == 0 {
        Seq::empty()
    } else if s[0] == ',' {
        owed(comma) + untrailed(s.skip(1), true)
    } else if s[0] == '}' || s[0] == ']' {
        seq![s[0]] + untrailed(s.skip(1), false)
    } else if is_space(s[0]) {
        seq![s[0]] + untrailed(s.skip(1), comma)
    } else if s[0] == '"' {
        owed(comma) + s.take(literal_len(s) as int) + untrailed(s.skip(literal_len(s) as int), false)
    } else {
        owed(comma) + seq![s[0]] + untrailed(s.skip(1), false)
    }
}

#[via_fn]
proof fn untrailed_shrinks(s: Seq<char>, comma: bool) {
    if s.len() > 0 {
        lemma_literal_fits(s.skip(1));
    }
}

/// Drop commas that directly precede a closing brace or bracket.
#[must_use]
pub fn remove_trailing_commas(text: &str) -> (r: String)
    ensures
        r@ == untrailed(text@, false),
{
    let chars = chars_of(text);
    let ghost s = text@;
    let n: usize = chars.len();
    let mut out = String::new();
    let mut comma = false;
    let mut i: usize = 0;
    assert(s.skip(0) =~= s);
    assert(out@ + untrailed(s, false) =~= untrailed(s, false));
    while i < n
        invariant
            i <= n == chars.len(),
            chars@ == s,
            out@ + untrailed(s.skip(i as int), comma) == untrailed(s, false),
        decreases n - i,
    {
        let ghost rest = s.skip(i as int);
        let ghost so_far = out@;
        let ghost held = comma;
        assert(rest[0] == s[i as int]);
        let c = chars[i];
        let mut end: usize = i + 1;
        if c == '}' || c == ']' {
            comma = false;
            out.push(c);
        } else if space(c) {
            out.push(c);
        } else {
            if comma {
                out.push(',');
            }
            assert(out@ =~= so_far + owed(held));
            comma = c == ',';
            if c == '"' {
                end = literal_end(&chars, i);
                let literal = text_of(&chars, i, end);
                out.append(literal.as_str());
                assert(rest.take(end - i) =~= s.subrange(i as int, end as int));
            } else if c != ',' {
                out.push(c);
            }
        }
        proof {
            assert(rest.skip(end - i) =~= s.skip(end as int));
            assert(out@ + untrailed(s.skip(end as int), comma) =~= so_far + untrailed(rest, held));
        }
        i = end;
    }
    assert(s.skip(n as int) =~= Seq::<char>::empty());
    assert(out@ + untrailed(s.skip(n as int), comma) =~= out@);
    out
}

/// A text without comments and trailing commas.
pub open spec fn plain_json(text: Seq<char>) -> Seq<char> {
    untrailed(uncommented(text), false)
}

/// Remove comments and trailing commas so a `tsconfig.json` parses as JSON.
///
/// TypeScript accepts both. Characters inside strings are left alone, because
/// a `//` in a path is not a comment.
#[must_use]
pub fn strip_jsonc(text: &str) -> (r: String)
    ensures
        r@ == plain_json(text@),
{
    remove_trailing_commas(remove_block_and_line_comments(text).as_str())
}

/// Whether a text is one string literal, closed at its end and not before.
pub open spec fn is_literal(s: Seq<char>) -> bool {
    s.len() >= 2 && s[0] == '"' && literal_len(s) == s.len() && literal_closes(s.skip(1))
}

/// Whether a quote closes the literal whose opening quote precedes a text.
pub open spec fn literal_closes(s: Seq<char>) -> bool
    decreases s.len(),
{
    if s.len() == 0 {
        false
    } else if s[0] == '"' {
        true
    } else if s[0] == '\\' && s.len() > 1 {
        literal_closes(s.skip(2))
    } else {
        literal_closes(s.skip(1))
    }
}

proof fn lemma_literal_ahead(s: Seq<char>, rest: Seq<char>)
    requires
        literal_closes(s),
    ensures
        literal_tail(s + rest) == literal_tail(s),
    decreases s.len(),
{
    let whole = s + rest;
    assert(whole[0] == s[0]);
    if s[0] != '"' {
        if s[0] == '\\' && s.len() > 1 {
            assert(whole.skip(2) =~= s.skip(2) + rest);
            lemma_literal_ahead(s.skip(2), rest);
        } else {
            assert(whole.skip(1) =~= s.skip(1) + rest);
            assert(s.len() > 1) by {
                assert(literal_closes(s.skip(1)));
                if s.len() == 1 {
                    assert(s.skip(1).len() == 0);
                    assert(!literal_closes(s.skip(1)));
                }
            }
            lemma_literal_ahead(s.skip(1), rest);
        }
    }
}

/// A string literal comes through whole, whatever it holds: neither a comment
/// marker nor a comma in it is touched.
pub proof fn lemma_strings_are_left_alone(literal: Seq<char>, rest: Seq<char>)
    requires
        is_literal(literal),
    ensures
        uncommented(literal + rest) == literal + uncommented(rest),
        untrailed(literal + rest, false) == literal + untrailed(rest, false),
{
    let whole = literal + rest;
    assert(whole.skip(1) =~= literal.skip(1) + rest);
    lemma_literal_ahead(literal.skip(1), rest);
    assert(whole[0] == literal[0]);
    assert(literal_len(whole) == literal.len());
    assert(whole.take(literal.len() as int) =~= literal);
    assert(whole.skip(literal.len() as int) =~= rest);
    assert(owed(false) + literal =~= literal);
}

/// A JSON value, as far as a configuration is read.
pub enum Json {
    Text(Seq<char>),
    List(Seq<Json>),
    Object(Map<Seq<char>, Json>),
    Other,
}

#[verifier::external_type_specification]
#[verifier::external_body]
pub struct ExJsonValue(serde_json::Value);

/// What a parsed JSON value holds.
pub uninterp spec fn json_content(value: serde_json::Value) -> Json;

/// What a text holds as JSON, unless it is not JSON.
pub uninterp spec fn json_of(text: Seq<char>) -> Option<Json>;

/// The values of several parsed JSON values.
pub open spec fn json_contents(values: Seq<&serde_json::Value>) -> Seq<Json> {
    Seq::new(values.len(), |i: int| json_content(*values[i]))
}

/// `serde_json::from_str` reads one JSON value out of a text, or fails. What
/// it reads depends on the text alone.
#[verifier::external_body]
fn parse_json(text: &str) -> (r: Option<serde_json::Value>)
    ensures
        match r {
            Some(value) => json_of(text@) == Some(json_content(value)),
            None => json_of(text@) is None,
        },
{
    serde_json::from_str::<serde_json::Value>(text).ok()
}

/// The member of an object under a key.
pub open spec fn member(value: Json, key: Seq<char>) -> Option<Json> {
    match value {
        Json::Object(members) => if members.contains_key(key) {
            Some(members[key])
        } else {
            None
        },
        _ => None,
    }
}

/// `serde_json::Value::get` with a string finds the member of an object under
/// that key, and nothing in any other value.
#[verifier::external_body]
pub(crate) fn json_member<'a>(value: &'a serde_json::Value, key: &str) -> (r: Option<&'a serde_json::Value>)
    ensures
        match r {
            Some(found) => member(json_content(*value), key@) == Some(json_content(*found)),
            None => member(json_content(*value), key@) is None,
        },
{
    value.get(key)
}

/// Whether pairs list the members of an object, each once.
pub open spec fn lists_members(pairs: Seq<(String, &serde_json::Value)>, members: Map<Seq<char>, Json>) -> bool {
    &&& forall|i: int| 0 <= i < pairs.len() ==> members.contains_key((#[trigger] pairs[i]).0@) && members[pairs[i].0@] == json_content(*pairs[i].1)
    &&& forall|i: int, j: int| 0 <= i < j < pairs.len() ==> (#[trigger] pairs[i]).0@ != (#[trigger] pairs[j]).0@
    &&& forall|key: Seq<char>| #[trigger] members.contains_key(key) ==> exists|i: int| 0 <= i < pairs.len() && (#[trigger] pairs[i]).0@ == key
}

/// `serde_json::Value::as_object` gives the members of an object, and nothing
/// for any other value. Each key occurs once; their order is left open.
#[verifier::external_body]
pub(crate) fn json_members<'a>(value: &'a serde_json::Value) -> (r: Option<Vec<(String, &'a serde_json::Value)>>)
    ensures
        match json_content(*value) {
            Json::Object(members) => r is Some && lists_members(r->0@, members),
            _ => r is None,
        },
{
    value.as_object().map(|members| members.iter().map(|(key, member)| (key.clone(), member)).collect())
}

/// `serde_json::Value::as_array` gives the items of an array in order, and
/// nothing for any other value.
#[verifier::external_body]
fn json_items<'a>(value: &'a serde_json::Value) -> (r: Option<Vec<&'a serde_json::Value>>)
    ensures
        match json_content(*value) {
            Json::List(items) => r is Some && json_contents(r->0@) == items,
            _ => r is None,
        },
{
    value.as_array().map(|items| items.iter().collect())
}

/// `serde_json::Value::as_str` gives the characters of a JSON string, and
/// nothing for any other value.
#[verifier::external_body]
pub(crate) fn json_text<'a>(value: &'a serde_json::Value) -> (r: Option<&'a str>)
    ensures
        match json_content(*value) {
            Json::Text(text) => r is Some && r->0@ == text,
            _ => r is None,
        },
{
    value.as_str()
}

/// The strings among the items of a list.
pub open spec fn strings_in(items: Seq<Json>) -> Seq<Seq<char>>
    decreases items.len(),
{
    if items.len() == 0 {
        Seq::empty()
    } else {
        match items.last() {
            Json::Text(text) => strings_in(items.drop_last()).push(text),
            _ => strings_in(items.drop_last()),
        }
    }
}

/// The strings that a `paths` entry lists; what is not a list has none.
pub open spec fn entry_strings(entry: Json) -> Seq<Seq<char>> {
    match entry {
        Json::List(items) => strings_in(items),
        _ => Seq::empty(),
    }
}

/// Targets without a leading `./` and a trailing slash.
pub open spec fn normalized_all(targets: Seq<Seq<char>>) -> Seq<Seq<char>> {
    targets.map_values(|target: Seq<char>| normalized(target))
}

/// The targets of a `paths` entry.
pub open spec fn entry_targets(entry: Json) -> Seq<Seq<char>> {
    normalized_all(entry_strings(entry))
}

fn read_strings(value: &serde_json::Value) -> (r: Vec<String>)
    ensures
        texts(r@) == entry_strings(json_content(*value)),
{
    let mut out: Vec<String> = Vec::new();
    let Some(items) = json_items(value) else {
        assert(texts(out@) =~= Seq::<Seq<char>>::empty());
        return out;
    };
    let ghost contents = json_contents(items@);
    let mut i: usize = 0;
    assert(contents.take(0) =~= Seq::<Json>::empty());
    assert(texts(out@) =~= Seq::<Seq<char>>::empty());
    while i < items.len()
        invariant
            i <= items.len(),
            contents == json_contents(items@),
            texts(out@) == strings_in(contents.take(i as int)),
        decreases items.len() - i,
    {
        let ghost so_far = texts(out@);
        assert(contents.take(i + 1).drop_last() =~= contents.take(i as int));
        assert(contents.take(i + 1).last() == json_content(*items@[i as int]));
        if let Some(text) = json_text(items[i]) {
            out.push(text.to_owned());
            assert(texts(out@) =~= so_far.push(text@));
        }
        i = i + 1;
    }
    assert(contents.take(i as int) =~= contents);
    out
}

/// The `compilerOptions.paths` of a configuration.
pub open spec fn configured_paths(config: Json) -> Map<Seq<char>, Json> {
    match member(config, "compilerOptions"@) {
        Some(options) => match member(options, "paths"@) {
            Some(Json::Object(paths)) => paths,
            _ => Map::empty(),
        },
        None => Map::empty(),
    }
}

/// Whether an alias stands in a `paths` object: its pattern is a key there, and
/// its targets are those of the entry, of which there is at least one.
pub open spec fn is_configured(paths: Map<Seq<char>, Json>, alias: AliasView) -> bool {
    &&& paths.contains_key(alias.pattern)
    &&& alias.targets == entry_targets(paths[alias.pattern])
    &&& alias.targets.len() > 0
}

/// Where one alias stands relative to another: the longer pattern first, so
/// that an exact pattern is preferred over the wildcard that covers it.
pub open spec fn alias_rank(a: AliasView, b: AliasView) -> Rank {
    otherwise(
        number_rank(encode_utf8(b.pattern).len() as int, encode_utf8(a.pattern).len() as int),
        text_rank(a.pattern, b.pattern),
    )
}

/// The order in which aliases are tried.
pub open spec fn alias_order() -> spec_fn(AliasView, AliasView) -> Rank {
    |a: AliasView, b: AliasView| alias_rank(a, b)
}

proof fn lemma_alias_order()
    ensures
        lawful(alias_order()),
        forall|a: AliasView, b: AliasView| #[trigger] alias_order()(a, b) == Rank::Same ==> a.pattern == b.pattern,
{
    let lengths = |a: AliasView, b: AliasView| number_rank(encode_utf8(a.pattern).len() as int, encode_utf8(b.pattern).len() as int);
    let longest = |a: AliasView, b: AliasView| lengths(b, a);
    let names = |a: AliasView, b: AliasView| text_rank(a.pattern, b.pattern);
    lemma_numbers_lawful();
    lemma_texts_lawful();
    lemma_lawful_by(|a: int, b: int| number_rank(a, b), |a: AliasView| encode_utf8(a.pattern).len() as int);
    assert(lengths =~= |a: AliasView, b: AliasView| (|x: int, y: int| number_rank(x, y))(encode_utf8(a.pattern).len() as int, encode_utf8(b.pattern).len() as int));
    lemma_lawful_flipped(lengths);
    lemma_lawful_by(|a: Seq<char>, b: Seq<char>| text_rank(a, b), |a: AliasView| a.pattern);
    assert(names =~= |a: AliasView, b: AliasView| (|x: Seq<char>, y: Seq<char>| text_rank(x, y))(a.pattern, b.pattern));
    lemma_lawful_otherwise(longest, names);
    assert(alias_order() =~= |a: AliasView, b: AliasView| otherwise(longest(a, b), names(a, b)));
}

/// The aliases that a configuration's text declares, in the order in which
/// they are tried. A text that is no configuration declares none.
pub open spec fn declared_aliases(text: Seq<char>) -> Seq<AliasView> {
    match json_of(plain_json(text)) {
        Some(config) => ranked(Set::new(|a: AliasView| is_configured(configured_paths(config), a)), alias_order()),
        None => Seq::empty(),
    }
}

/// The patterns of a configuration, each with the strings it lists.
pub open spec fn entry_pairs(entries: Seq<(String, Vec<String>)>) -> Seq<(Seq<char>, Seq<Seq<char>>)> {
    entries.map_values(|e: (String, Vec<String>)| (e.0@, texts(e.1@)))
}

/// The aliases that patterns with targets make; a pattern without a target makes
/// none.
pub open spec fn usable(pairs: Seq<(Seq<char>, Seq<Seq<char>>)>) -> Seq<AliasView>
    decreases pairs.len(),
{
    if pairs.len() == 0 {
        Seq::empty()
    } else {
        let (pattern, targets) = pairs.last();
        let before = usable(pairs.drop_last());
        if targets.len() > 0 {
            before.push(AliasView { pattern, targets: normalized_all(targets) })
        } else {
            before
        }
    }
}

fn normalize_all(targets: &Vec<String>) -> (r: Vec<String>)
    ensures
        texts(r@) == normalized_all(texts(targets@)),
{
    let ghost given = texts(targets@);
    let mut out: Vec<String> = Vec::new();
    let mut i: usize = 0;
    while i < targets.len()
        invariant
            i <= targets.len(),
            given == texts(targets@),
            texts(out@) =~= normalized_all(given.take(i as int)),
        decreases targets.len() - i,
    {
        let ghost so_far = texts(out@);
        assert(given[i as int] == targets@[i as int]@);
        out.push(normalize(targets[i].as_str()));
        assert(texts(out@) =~= so_far.push(normalized(given[i as int])));
        assert(normalized_all(given.take(i + 1)) =~= so_far.push(normalized(given[i as int])));
        i = i + 1;
    }
    assert(given.take(i as int) =~= given);
    out
}

/// The aliases that patterns with their listed strings make, longer patterns
/// first.
#[must_use]
pub fn aliases_from(entries: &Vec<(String, Vec<String>)>) -> (r: Vec<PathAlias>)
    ensures
        alias_views(r@) == arranged(usable(entry_pairs(entries@)), by_rank(alias_order())),
{
    let ghost pairs = entry_pairs(entries@);
    let mut out: Vec<PathAlias> = Vec::new();
    let mut i: usize = 0;
    assert(alias_views(out@) =~= usable(pairs.take(0)));
    while i < entries.len()
        invariant
            i <= entries.len(),
            pairs == entry_pairs(entries@),
            alias_views(out@) == usable(pairs.take(i as int)),
        decreases entries.len() - i,
    {
        let ghost so_far = alias_views(out@);
        assert(pairs.take(i + 1).drop_last() =~= pairs.take(i as int));
        assert(pairs.take(i + 1).last() == (entries@[i as int].0@, texts(entries@[i as int].1@)));
        if entries[i].1.len() > 0 {
            let alias = PathAlias { pattern: entries[i].0.clone(), targets: normalize_all(&entries[i].1) };
            let ghost added = alias@;
            assert(added =~= AliasView { pattern: entries@[i as int].0@, targets: normalized_all(texts(entries@[i as int].1@)) });
            out.push(alias);
            assert(alias_views(out@) =~= so_far.push(added));
        }
        i = i + 1;
    }
    assert(pairs.take(i as int) =~= pairs);
    let rank_of = |a: &PathAlias, b: &PathAlias| -> (r: Rank)
        ensures
            r == alias_rank(a@, b@),
    {
        or_else(
            compare_numbers(b.pattern.as_str().as_bytes().len() as u64, a.pattern.as_str().as_bytes().len() as u64),
            compare(a.pattern.as_str(), b.pattern.as_str()),
        )
    };
    let ghost shown = |a: PathAlias| a@;
    assert(alias_views(out@) =~= out@.map_values(shown));
    arrange_by::<PathAlias, AliasView, _>(&mut out, rank_of, Ghost(shown), Ghost(alias_order()));
    assert(alias_views(out@) =~= out@.map_values(shown));
    out
}

/// Whether an alias comes from one of some pairs.
spec fn is_usable(pairs: Seq<(Seq<char>, Seq<Seq<char>>)>, alias: AliasView) -> bool {
    exists|i: int|
        0 <= i < pairs.len() && (#[trigger] pairs[i]).0 == alias.pattern && alias.targets == normalized_all(pairs[i].1) && pairs[i].1.len() > 0
}

proof fn lemma_usable(pairs: Seq<(Seq<char>, Seq<Seq<char>>)>)
    requires
        forall|i: int, j: int| 0 <= i < j < pairs.len() ==> (#[trigger] pairs[i]).0 != (#[trigger] pairs[j]).0,
    ensures
        forall|a: AliasView| #[trigger] usable(pairs).contains(a) <==> is_usable(pairs, a),
        forall|i: int, j: int| 0 <= i < j < usable(pairs).len() ==> (#[trigger] usable(pairs)[i]).pattern != (#[trigger] usable(pairs)[j]).pattern,
    decreases pairs.len(),
{
    if pairs.len() > 0 {
        let shorter = pairs.drop_last();
        let last = pairs.last();
        let before = usable(shorter);
        let out = usable(pairs);
        lemma_usable(shorter);
        let added = AliasView { pattern: last.0, targets: normalized_all(last.1) };
        crate::collections::lemma_push_contains(before, added);
        assert(pairs[pairs.len() - 1] == last);
        assert forall|a: AliasView| #[trigger] out.contains(a) <==> is_usable(pairs, a) by {
            if is_usable(shorter, a) {
                let i = choose|i: int|
                    0 <= i < shorter.len() && (#[trigger] shorter[i]).0 == a.pattern && a.targets == normalized_all(shorter[i].1) && shorter[i].1.len() > 0;
                assert(pairs[i] == shorter[i]);
            }
            if is_usable(pairs, a) {
                let i = choose|i: int|
                    0 <= i < pairs.len() && (#[trigger] pairs[i]).0 == a.pattern && a.targets == normalized_all(pairs[i].1) && pairs[i].1.len() > 0;
                if i < shorter.len() {
                    assert(shorter[i] == pairs[i]);
                    assert(is_usable(shorter, a));
                } else {
                    assert(a =~= added);
                }
            }
            if last.1.len() > 0 {
                assert(is_usable(pairs, added));
            }
        }
        if last.1.len() > 0 {
            assert forall|i: int, j: int| 0 <= i < j < out.len() implies (#[trigger] out[i]).pattern != (#[trigger] out[j]).pattern by {
                if j == out.len() - 1 {
                    let a = before[i];
                    assert(before.contains(a));
                    assert(is_usable(shorter, a));
                    let k = choose|k: int|
                        0 <= k < shorter.len() && (#[trigger] shorter[k]).0 == a.pattern && a.targets == normalized_all(shorter[k].1) && shorter[k].1.len()
                            > 0;
                    assert(pairs[k] == shorter[k]);
                    assert(pairs[k].0 != pairs[pairs.len() - 1].0);
                } else {
                    assert(before[i].pattern != before[j].pattern);
                }
            }
        }
    }
}

/// The entries of a `paths` object, each with the strings it lists.
fn read_entries(members: &Vec<(String, &serde_json::Value)>) -> (r: Vec<(String, Vec<String>)>)
    ensures
        r@.len() == members@.len(),
        forall|i: int|
            0 <= i < members@.len() ==> (#[trigger] entry_pairs(r@)[i]) == (members@[i].0@, entry_strings(json_content(*members@[i].1))),
{
    let mut out: Vec<(String, Vec<String>)> = Vec::new();
    let mut i: usize = 0;
    while i < members.len()
        invariant
            i <= members.len(),
            out@.len() == i,
            forall|k: int| 0 <= k < i ==> (#[trigger] out@[k]).0@ == members@[k].0@ && texts(out@[k].1@) == entry_strings(json_content(*members@[k].1)),
        decreases members.len() - i,
    {
        out.push((members[i].0.clone(), read_strings(members[i].1)));
        i = i + 1;
    }
    assert forall|k: int| 0 <= k < members@.len() implies (#[trigger] entry_pairs(out@)[k]) == (
        members@[k].0@,
        entry_strings(json_content(*members@[k].1)),
    ) by {
        assert(out@[k].0@ == members@[k].0@);
    }
    out
}

/// Read the aliases out of the text of a configuration.
///
/// A malformed config yields no aliases rather than an error: a build
/// configuration is not something this tool validates.
#[must_use]
pub fn path_aliases(text: &str) -> (r: Vec<PathAlias>)
    ensures
        alias_views(r@) == declared_aliases(text@),
        strictly(alias_views(r@), alias_order()),
{
    let out: Vec<PathAlias> = Vec::new();
    assert(alias_views(out@) =~= Seq::<AliasView>::empty());
    let Some(config) = parse_json(strip_jsonc(text).as_str()) else {
        return out;
    };
    let ghost paths = configured_paths(json_content(config));
    let ghost members = Set::new(|a: AliasView| is_configured(paths, a));
    let found = match json_member(&config, "compilerOptions") {
        Some(options) => match json_member(options, "paths") {
            Some(value) => json_members(value),
            None => None,
        },
        None => None,
    };
    let pairs = match found {
        Some(pairs) => pairs,
        None => Vec::new(),
    };
    assert(lists_members(pairs@, paths));
    let entries = read_entries(&pairs);
    let ghost listed_pairs = entry_pairs(entries@);
    let ghost unsorted = usable(listed_pairs);
    proof {
        assert forall|i: int, j: int| 0 <= i < j < listed_pairs.len() implies (#[trigger] listed_pairs[i]).0 != (#[trigger] listed_pairs[j]).0 by {
            assert(pairs@[i].0@ != pairs@[j].0@);
        }
        lemma_usable(listed_pairs);
        assert forall|a: AliasView| unsorted.to_set().contains(a) <==> members.contains(a) by {
            assert(unsorted.contains(a) <==> is_usable(listed_pairs, a));
            if is_configured(paths, a) {
                let k = choose|k: int| 0 <= k < pairs@.len() && (#[trigger] pairs@[k]).0@ == a.pattern;
                assert(listed_pairs[k].0 == a.pattern);
                assert(is_usable(listed_pairs, a));
            }
            if is_usable(listed_pairs, a) {
                let k = choose|k: int|
                    0 <= k < listed_pairs.len() && (#[trigger] listed_pairs[k]).0 == a.pattern && a.targets == normalized_all(listed_pairs[k].1)
                        && listed_pairs[k].1.len() > 0;
                assert(members_of_key(pairs@, paths, k));
            }
        }
        assert(unsorted.to_set() =~= members);
        lemma_alias_order();
        assert forall|a: AliasView, b: AliasView|
            unsorted.contains(a) && unsorted.contains(b) && #[trigger] alias_order()(a, b) == Rank::Same implies a == b by {
            let j = choose|j: int| 0 <= j < unsorted.len() && unsorted[j] == a;
            let k = choose|k: int| 0 <= k < unsorted.len() && unsorted[k] == b;
            if j < k {
                assert(unsorted[j].pattern != unsorted[k].pattern);
            } else if k < j {
                assert(unsorted[k].pattern != unsorted[j].pattern);
            }
        }
        lemma_arranged_ranked(unsorted, alias_order());
    }
    aliases_from(&entries)
}

/// The member that a pair lists.
spec fn members_of_key(pairs: Seq<(String, &serde_json::Value)>, members: Map<Seq<char>, Json>, k: int) -> bool {
    members.contains_key(pairs[k].0@) && members[pairs[k].0@] == json_content(*pairs[k].1)
}

} // verus!

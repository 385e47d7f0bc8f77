//! Reading what Git prints about the difference between two revisions.

use vstd::prelude::*;
use vstd::utf8::*;

use crate::collections::{arranged, in_sequence, lemma_arranged_keeps, placed, TextMap, TextSet};
use crate::order::{
    arrange_by, by_rank, compare_options, lemma_lawful_by, lemma_lawful_otherwise, lemma_options_lawful, lemma_sorted_by_rank,
    option_rank, or_else, otherwise,
};
use crate::text::{
    decode, decimal, fault_text, join2, join3, join4, lines, lines_of, number_text, numeral, other_than, parse_numeral, quoted, quoted_form,
    same_text, span, split_on, split_text, starts_with, text_option, texts, utf8_fault, words, words_of, Rank,
};
use crate::{BlobContent, BlobView, ChangeInventory, ChangeSummary, DiffHunk, DiffScopeError, ErrorView, FileChange, FileChangeView, FileStatus, ResolvedRevision};

verus! {

/// The object id Git writes for a side that has no blob.
pub open spec fn zero_oid() -> Seq<char> {
    "0000000000000000000000000000000000000000"@
}

fn invalid(message: String) -> (r: DiffScopeError)
    ensures
        r@ == ErrorView::InvalidGitOutput(message@),
{
    DiffScopeError::InvalidGitOutput(message)
}

/// The condition of not being the NUL byte.
pub open spec fn not_nul() -> spec_fn(u8) -> bool {
    |b: u8| b != 0
}

/// The pieces of bytes between NUL bytes, without the empty ones.
pub open spec fn records(bytes: Seq<u8>) -> Seq<Seq<u8>>
    decreases bytes.len(),
{
    let n = span(bytes, not_nul());
    let head = if n == 0 {
        Seq::<Seq<u8>>::empty()
    } else {
        seq![bytes.take(n as int)]
    };
    if n < bytes.len() {
        head + records(bytes.skip(n as int + 1))
    } else {
        head
    }
}

/// The views of byte records.
pub open spec fn record_views(v: Seq<Vec<u8>>) -> Seq<Seq<u8>> {
    v.map_values(|r: Vec<u8>| r@)
}

fn bytes_between(bytes: &[u8], from: usize, to: usize) -> (r: Vec<u8>)
    requires
        from <= to <= bytes.len(),
    ensures
        r@ == bytes@.subrange(from as int, to as int),
{
    let mut out: Vec<u8> = Vec::new();
    let mut i: usize = from;
    while i < to
        invariant
            from <= i <= to <= bytes.len(),
            out@ == bytes@.subrange(from as int, i as int),
        decreases to - i,
    {
        assert(bytes@.subrange(from as int, i as int).push(bytes@[i as int]) =~= bytes@.subrange(from as int, i + 1));
        out.push(bytes[i]);
        i = i + 1;
    }
    out
}

/// Split NUL-separated output into its records.
pub fn split_nul(bytes: &[u8]) -> (r: Vec<Vec<u8>>)
    ensures
        record_views(r@) == records(bytes@),
{
    let n: usize = bytes.len();
    let mut out: Vec<Vec<u8>> = Vec::new();
    let mut start: usize = 0;
    let mut i: usize = 0;
    assert(bytes@.skip(0) =~= bytes@);
    assert(record_views(out@) + records(bytes@.skip(0)) =~= records(bytes@));
    while i < n
        invariant
            n == bytes.len(),
            start <= i <= n,
            forall|k: int| start <= k < i ==> #[trigger] bytes@[k] != 0,
            record_views(out@) + records(bytes@.skip(start as int)) == records(bytes@),
        decreases n - i,
    {
        if bytes[i] == 0 {
            let ghost rest = bytes@.skip(start as int);
            let ghost so_far = record_views(out@);
            proof {
                assert forall|k: int| 0 <= k < i - start implies not_nul()(#[trigger] rest[k]) by {
                    assert(bytes@[start + k] != 0);
                }
                assert(rest[i - start] == bytes@[i as int]);
                crate::text::lemma_span(rest, not_nul(), (i - start) as nat);
                assert(rest.take(i - start) =~= bytes@.subrange(start as int, i as int));
                assert(rest.skip(i - start + 1) =~= bytes@.skip(i + 1));
            }
            if i > start {
                out.push(bytes_between(bytes, start, i));
                assert(record_views(out@) =~= so_far.push(bytes@.subrange(start as int, i as int)));
            }
            assert(record_views(out@) + records(bytes@.skip(i + 1)) =~= so_far + records(rest));
            start = i + 1;
        }
        i = i + 1;
    }
    let ghost rest = bytes@.skip(start as int);
    let ghost so_far = record_views(out@);
    proof {
        assert forall|k: int| 0 <= k < n - start implies not_nul()(#[trigger] rest[k]) by {
            assert(bytes@[start + k] != 0);
        }
        crate::text::lemma_span(rest, not_nul(), (n - start) as nat);
        assert(rest.take(n - start) =~= bytes@.subrange(start as int, n as int));
    }
    if start < n {
        out.push(bytes_between(bytes, start, n));
        assert(record_views(out@) =~= so_far.push(bytes@.subrange(start as int, n as int)));
    }
    assert(record_views(out@) =~= so_far + records(rest));
    out
}

/// The text of bytes, or the error that they are not UTF-8.
pub open spec fn text_in(bytes: Seq<u8>, context: Seq<char>) -> Result<Seq<char>, ErrorView> {
    if valid_utf8(bytes) {
        Ok(decode_utf8(bytes))
    } else {
        Err(ErrorView::InvalidGitOutput(context + " is not UTF-8: "@ + utf8_fault(bytes)))
    }
}

/// The outcome of a fallible step, by what its texts hold.
pub open spec fn text_outcome(r: Result<String, DiffScopeError>) -> Result<Seq<char>, ErrorView> {
    match r {
        Ok(text) => Ok(text@),
        Err(error) => Err(error@),
    }
}

/// Decode bytes that have to be UTF-8.
pub fn utf8(bytes: &[u8], context: &str) -> (r: Result<String, DiffScopeError>)
    ensures
        text_outcome(r) == text_in(bytes@, context@),
{
    match decode(bytes) {
        Ok(text) => Ok(text),
        Err(fault) => Err(invalid(join3(context, " is not UTF-8: ", fault.as_str()))),
    }
}

/// The text of a command's output, or the error that it is not UTF-8.
pub open spec fn output_text(bytes: Seq<u8>) -> Result<Seq<char>, ErrorView> {
    if valid_utf8(bytes) {
        Ok(decode_utf8(bytes))
    } else {
        Err(ErrorView::InvalidGitOutput("git emitted non-UTF-8 text: "@ + utf8_fault(bytes)))
    }
}

/// Decode the output of a Git command that prints text.
pub fn decode_output(bytes: &[u8]) -> (r: Result<String, DiffScopeError>)
    ensures
        text_outcome(r) == output_text(bytes@),
{
    match decode(bytes) {
        Ok(text) => Ok(text),
        Err(fault) => Err(invalid(join2("git emitted non-UTF-8 text: ", fault.as_str()))),
    }
}

/// A text without the line ends behind it.
pub open spec fn without_line_end(s: Seq<char>) -> Seq<char>
    decreases s.len(),
{
    if s.len() > 0 && (s.last() == '\n' || s.last() == '\r') {
        without_line_end(s.drop_last())
    } else {
        s
    }
}

/// Drop the line ends behind a text.
pub fn trim_line_end(s: &str) -> (r: String)
    ensures
        r@ == without_line_end(s@),
{
    let chars = crate::text::chars_of(s);
    let mut n: usize = chars.len();
    assert(s@.take(n as int) =~= s@);
    while n > 0 && (chars[n - 1] == '\n' || chars[n - 1] == '\r')
        invariant
            chars@ == s@,
            n <= chars.len(),
            without_line_end(s@.take(n as int)) == without_line_end(s@),
        decreases n,
    {
        assert(s@.take(n as int).drop_last() =~= s@.take(n - 1));
        n = n - 1;
    }
    assert(s@.take(n as int) =~= s@.subrange(0, n as int));
    crate::text::text_of(&chars, 0, n)
}

/// The revision a resolution names: what was asked for, and the commit.
pub fn resolved_revision(revision: &str, output: &str) -> (r: ResolvedRevision)
    ensures
        r.input@ == revision@,
        r.commit_id@ == without_line_end(output@),
{
    ResolvedRevision { input: revision.to_owned(), commit_id: trim_line_end(output) }
}

/// The argument with which Git is asked for the commit of a revision.
pub fn commit_spec(revision: &str) -> (r: String)
    ensures
        r@ == revision@ + "^{commit}"@,
{
    join2(revision, "^{commit}")
}

/// The path in a record, or the error that it is missing or no text.
pub open spec fn path_at(recs: Seq<Seq<u8>>, at: int, context: Seq<char>) -> Result<Seq<char>, ErrorView> {
    if 0 <= at < recs.len() {
        text_in(recs[at], context)
    } else {
        Err(ErrorView::InvalidGitOutput("missing "@ + context))
    }
}

/// Take the path in a record.
fn take_path(recs: &Vec<Vec<u8>>, at: usize, context: &str) -> (r: Result<String, DiffScopeError>)
    ensures
        text_outcome(r) == path_at(record_views(recs@), at as int, context@),
{
    if at < recs.len() {
        assert(record_views(recs@)[at as int] == recs@[at as int]@);
        utf8(recs[at].as_slice(), context)
    } else {
        Err(invalid(join2("missing ", context)))
    }
}

/// One header of a raw diff.
#[derive(Debug)]
pub struct RawChange {
    pub old_oid: Option<String>,
    pub new_oid: Option<String>,
    pub status: FileStatus,
}

/// A raw diff header by what its texts hold.
#[verifier::ext_equal]
pub struct RawChangeView {
    pub old_oid: Option<Seq<char>>,
    pub new_oid: Option<Seq<char>>,
    pub status: FileStatus,
}

impl View for RawChange {
    type V = RawChangeView;

    open spec fn view(&self) -> RawChangeView {
        RawChangeView { old_oid: text_option(self.old_oid), new_oid: text_option(self.new_oid), status: self.status }
    }
}

/// The object id at a position, unless it is missing or stands for no blob.
pub open spec fn oid_at(parts: Seq<Seq<char>>, at: int) -> Option<Seq<char>> {
    if at < parts.len() && parts[at] != zero_oid() {
        Some(parts[at])
    } else {
        None
    }
}

/// The status that the first byte of a status field names.
pub open spec fn status_of_byte(byte: Option<u8>) -> Option<FileStatus> {
    match byte {
        Some(b) => if b == 65 {
            Some(FileStatus::Added)
        } else if b == 68 {
            Some(FileStatus::Deleted)
        } else if b == 77 {
            Some(FileStatus::Modified)
        } else if b == 82 {
            Some(FileStatus::Renamed)
        } else {
            None
        },
        None => None,
    }
}

/// The first byte of a text.
pub open spec fn first_byte(s: Seq<char>) -> Option<u8> {
    if encode_utf8(s).len() > 0 {
        Some(encode_utf8(s)[0])
    } else {
        None
    }
}

/// How an optional byte is quoted in a diagnostic.
pub open spec fn byte_form(byte: Option<u8>) -> Seq<char> {
    match byte {
        Some(b) => "Some("@ + decimal(b as nat) + ")"@,
        None => "None"@,
    }
}

/// What a raw diff header says: two modes, two object ids and a status.
pub open spec fn raw_header(header: Seq<char>) -> Result<RawChangeView, ErrorView> {
    let parts = words(header);
    if parts.len() <= 4 {
        Err(ErrorView::InvalidGitOutput("missing status in "@ + quoted_form(header)))
    } else {
        let byte = first_byte(parts[4]);
        match status_of_byte(byte) {
            Some(status) => Ok(RawChangeView { old_oid: oid_at(parts, 2), new_oid: oid_at(parts, 3), status }),
            None => Err(
                ErrorView::InvalidGitOutput("unsupported raw diff status "@ + byte_form(byte) + " in "@ + quoted_form(header)),
            ),
        }
    }
}

fn normalized_oid(parts: &Vec<String>, at: usize) -> (r: Option<String>)
    ensures
        text_option(r) == oid_at(texts(parts@), at as int),
{
    if at < parts.len() {
        assert(texts(parts@)[at as int] == parts@[at as int]@);
        if !same_text(parts[at].as_str(), "0000000000000000000000000000000000000000") {
            return Some(parts[at].clone());
        }
    }
    None
}

/// Read a raw diff header.
pub fn parse_raw_header(header: &str) -> (r: Result<RawChange, DiffScopeError>)
    ensures
        match r {
            Ok(raw) => raw_header(header@) == Ok::<RawChangeView, ErrorView>(raw@),
            Err(error) => raw_header(header@) == Err::<RawChangeView, ErrorView>(error@),
        },
{
    let parts = words_of(header);
    let old_oid = normalized_oid(&parts, 2);
    let new_oid = normalized_oid(&parts, 3);
    if parts.len() <= 4 {
        return Err(invalid(join2("missing status in ", quoted(header).as_str())));
    }
    assert(texts(parts@)[4] == parts@[4]@);
    let bytes = parts[4].as_str().as_bytes();
    let byte: Option<u8> = if bytes.len() > 0 {
        Some(bytes[0])
    } else {
        None
    };
    let status = match byte {
        Some(65) => FileStatus::Added,
        Some(68) => FileStatus::Deleted,
        Some(77) => FileStatus::Modified,
        Some(82) => FileStatus::Renamed,
        other => {
            let form = match other {
                Some(b) => join3("Some(", number_text(b as u64).as_str(), ")"),
                None => "None".to_owned(),
            };
            return Err(invalid(join4("unsupported raw diff status ", form.as_str(), " in ", quoted(header).as_str())));
        },
    };
    Ok(RawChange { old_oid, new_oid, status })
}

/// The change that a raw diff header and its paths describe, before its hunks
/// and blobs are known.
pub open spec fn bare_change(raw: RawChangeView, path: Seq<char>, renamed_to: Option<Seq<char>>) -> FileChangeView {
    FileChangeView {
        base_path: if raw.status == FileStatus::Added {
            None
        } else {
            Some(path)
        },
        target_path: match raw.status {
            FileStatus::Deleted => None,
            FileStatus::Renamed => renamed_to,
            _ => Some(path),
        },
        status: raw.status,
        old_blob_id: raw.old_oid,
        new_blob_id: raw.new_oid,
        base_blob: BlobView::NotApplicable,
        target_blob: BlobView::NotApplicable,
        added_lines: 0,
        removed_lines: 0,
        hunks: Seq::empty(),
    }
}

/// The changes that the records of a raw diff describe from a position on: each
/// is a header and its path, and for a rename the new path.
pub open spec fn raw_changes(recs: Seq<Seq<u8>>, at: int) -> Result<Seq<FileChangeView>, ErrorView>
    decreases recs.len() - at,
{
    if at < 0 || at >= recs.len() {
        Ok(Seq::empty())
    } else {
        match text_in(recs[at], "raw diff header"@) {
            Err(error) => Err(error),
            Ok(header) => if header.len() == 0 {
                raw_changes(recs, at + 1)
            } else {
                match raw_header(header) {
                    Err(error) => Err(error),
                    Ok(raw) => match path_at(recs, at + 1, "raw diff path"@) {
                        Err(error) => Err(error),
                        Ok(path) => if raw.status == FileStatus::Renamed {
                            match path_at(recs, at + 2, "raw diff rename target"@) {
                                Err(error) => Err(error),
                                Ok(target) => followed_by(bare_change(raw, path, Some(target)), raw_changes(recs, at + 3)),
                            }
                        } else {
                            followed_by(bare_change(raw, path, None), raw_changes(recs, at + 2))
                        },
                    },
                }
            },
        }
    }
}

/// One more element in front of an outcome.
pub open spec fn followed_by<T, E>(first: T, rest: Result<Seq<T>, E>) -> Result<Seq<T>, E> {
    match rest {
        Ok(items) => Ok(seq![first] + items),
        Err(error) => Err(error),
    }
}

/// Elements in front of an outcome.
pub open spec fn preceded_by<T, E>(items: Seq<T>, rest: Result<Seq<T>, E>) -> Result<Seq<T>, E> {
    match rest {
        Ok(more) => Ok(items + more),
        Err(error) => Err(error),
    }
}

/// The outcome of a fallible reading of changes, by what it holds.
pub open spec fn changes_outcome(r: Result<Vec<FileChange>, DiffScopeError>) -> Result<Seq<FileChangeView>, ErrorView> {
    match r {
        Ok(files) => Ok(crate::change_views(files@)),
        Err(error) => Err(error@),
    }
}

/// Read the NUL-separated output of a raw diff.
pub fn parse_raw_changes(output: &[u8]) -> (r: Result<Vec<FileChange>, DiffScopeError>)
    ensures
        changes_outcome(r) == raw_changes(records(output@), 0),
{
    let recs = split_nul(output);
    let ghost views = records(output@);
    let mut index: usize = 0;
    let mut changes: Vec<FileChange> = Vec::new();
    proof {
        assert(crate::change_views(changes@) =~= Seq::<FileChangeView>::empty());
        match raw_changes(views, 0) {
            Ok(items) => {
                assert(Seq::<FileChangeView>::empty() + items =~= items);
            },
            Err(_) => {},
        }
    }
    while index < recs.len()
        invariant
            views == records(output@),
            record_views(recs@) == views,
            index <= recs.len() + 2,
            preceded_by(crate::change_views(changes@), raw_changes(views, index as int)) == raw_changes(views, 0),
        decreases recs.len() + 2 - index,
    {
        let ghost start = index as int;
        assert(views[start] == recs@[start]@);
        let header = match utf8(recs[index].as_slice(), "raw diff header") {
            Ok(text) => text,
            Err(error) => {
                return Err(error);
            },
        };
        index = index + 1;
        if header.as_str().is_empty() {
            continue;
        }
        let parsed = match parse_raw_header(header.as_str()) {
            Ok(raw) => raw,
            Err(error) => {
                return Err(error);
            },
        };
        let path = match take_path(&recs, index, "raw diff path") {
            Ok(text) => text,
            Err(error) => {
                return Err(error);
            },
        };
        index = index + 1;
        let ghost path_view = path@;
        let ghost raw = parsed@;
        let ghost mut renamed_to: Option<Seq<char>> = None;
        let (base_path, target_path) = match parsed.status {
            FileStatus::Added => (None, Some(path)),
            FileStatus::Deleted => (Some(path), None),
            FileStatus::Renamed => {
                let target = match take_path(&recs, index, "raw diff rename target") {
                    Ok(text) => text,
                    Err(error) => {
                        return Err(error);
                    },
                };
                index = index + 1;
                proof {
                    renamed_to = Some(target@);
                }
                (Some(path), Some(target))
            },
            FileStatus::Modified | FileStatus::Binary => (Some(path.clone()), Some(path)),
        };
        let ghost so_far = crate::change_views(changes@);
        let change = FileChange {
            base_path,
            target_path,
            status: parsed.status,
            old_blob_id: parsed.old_oid,
            new_blob_id: parsed.new_oid,
            base_blob: BlobContent::NotApplicable,
            target_blob: BlobContent::NotApplicable,
            added_lines: 0,
            removed_lines: 0,
            hunks: Vec::new(),
        };
        proof {
            assert(change@ =~= bare_change(raw, path_view, renamed_to));
        }
        changes.push(change);
        proof {
            let one = bare_change(raw, path_view, renamed_to);
            assert(crate::change_views(changes@) =~= so_far.push(one));
            assert(raw_changes(views, start) == followed_by(one, raw_changes(views, index as int)));
            match raw_changes(views, index as int) {
                Ok(items) => {
                    assert(so_far + (seq![one] + items) =~= so_far.push(one) + items);
                },
                Err(_) => {},
            }
        }
    }
    proof {
        assert(crate::change_views(changes@) + Seq::<FileChangeView>::empty() =~= crate::change_views(changes@));
    }
    Ok(changes)
}

/// The number in a piece of a hunk range.
pub open spec fn u32_in(piece: Seq<char>, context: Seq<char>) -> Result<u32, ErrorView> {
    match numeral(piece, u32::MAX as nat) {
        Ok(n) => Ok(n as u32),
        Err(fault) => Err(
            ErrorView::InvalidGitOutput("invalid integer in "@ + quoted_form(context) + ": "@ + fault_text(fault)),
        ),
    }
}

fn parse_u32(piece: &str, context: &str) -> (r: Result<u32, DiffScopeError>)
    ensures
        match r {
            Ok(n) => u32_in(piece@, context@) == Ok::<u32, ErrorView>(n),
            Err(error) => u32_in(piece@, context@) == Err::<u32, ErrorView>(error@),
        },
{
    match parse_numeral(piece, u32::MAX as u64) {
        Ok(n) => Ok(n as u32),
        Err(fault) => Err(invalid(join4("invalid integer in ", quoted(context).as_str(), ": ", fault.to_text()))),
    }
}

/// The start and the length that a hunk range gives: a sign, a line number, and
/// a count, which is 1 where none is written.
pub open spec fn hunk_range(range: Seq<char>, prefix: char) -> Result<(u32, u32), ErrorView> {
    if range.len() == 0 || range[0] != prefix {
        Err(
            ErrorView::InvalidGitOutput(
                "range "@ + quoted_form(range) + " missing prefix '"@ + seq![prefix] + "'"@,
            ),
        )
    } else {
        let pieces = split_on(range.drop_first(), ',');
        match u32_in(pieces[0], range) {
            Err(error) => Err(error),
            Ok(start) => if pieces.len() > 1 {
                match u32_in(pieces[1], range) {
                    Err(error) => Err(error),
                    Ok(count) => Ok((start, count)),
                }
            } else {
                Ok((start, 1))
            },
        }
    }
}

fn parse_range(range: &str, prefix: char) -> (r: Result<(u32, u32), DiffScopeError>)
    ensures
        match r {
            Ok(pair) => hunk_range(range@, prefix) == Ok::<(u32, u32), ErrorView>(pair),
            Err(error) => hunk_range(range@, prefix) == Err::<(u32, u32), ErrorView>(error@),
        },
{
    let chars = crate::text::chars_of(range);
    if chars.len() == 0 || chars[0] != prefix {
        let mut message = join3("range ", quoted(range).as_str(), " missing prefix '");
        let ghost head = message@;
        message.push(prefix);
        assert(message@ =~= head + seq![prefix]);
        message.append("'");
        return Err(invalid(message));
    }
    let rest = crate::text::text_of(&chars, 1, chars.len());
    assert(rest@ =~= range@.drop_first());
    let pieces = split_text(rest.as_str(), ',');
    assert(texts(pieces@)[0] == pieces@[0]@);
    let start: u32 = match parse_u32(pieces[0].as_str(), range) {
        Ok(n) => n,
        Err(error) => {
            return Err(error);
        },
    };
    if pieces.len() > 1 {
        assert(texts(pieces@)[1] == pieces@[1]@);
        match parse_u32(pieces[1].as_str(), range) {
            Ok(count) => Ok((start, count)),
            Err(error) => Err(error),
        }
    } else {
        Ok((start, 1))
    }
}

/// The hunk that a hunk header opens, before any of its lines.
pub open spec fn hunk_header(line: Seq<char>) -> Result<DiffHunk, ErrorView> {
    let parts = words(line);
    if parts.len() <= 1 {
        Err(ErrorView::InvalidGitOutput("missing base range in "@ + quoted_form(line)))
    } else if parts.len() <= 2 {
        Err(ErrorView::InvalidGitOutput("missing target range in "@ + quoted_form(line)))
    } else {
        match hunk_range(parts[1], '-') {
            Err(error) => Err(error),
            Ok(base) => match hunk_range(parts[2], '+') {
                Err(error) => Err(error),
                Ok(target) => Ok(
                    DiffHunk {
                        base_start: base.0,
                        base_count: base.1,
                        target_start: target.0,
                        target_count: target.1,
                        added_lines: 0,
                        removed_lines: 0,
                    },
                ),
            },
        }
    }
}

/// Read a hunk header.
pub fn parse_hunk_header(line: &str) -> (r: Result<DiffHunk, DiffScopeError>)
    ensures
        match r {
            Ok(hunk) => hunk_header(line@) == Ok::<DiffHunk, ErrorView>(hunk),
            Err(error) => hunk_header(line@) == Err::<DiffHunk, ErrorView>(error@),
        },
{
    let parts = words_of(line);
    if parts.len() <= 1 {
        return Err(invalid(join2("missing base range in ", quoted(line).as_str())));
    }
    if parts.len() <= 2 {
        return Err(invalid(join2("missing target range in ", quoted(line).as_str())));
    }
    assert(texts(parts@)[1] == parts@[1]@);
    assert(texts(parts@)[2] == parts@[2]@);
    match parse_range(parts[1].as_str(), '-') {
        Err(error) => Err(error),
        Ok((base_start, base_count)) => match parse_range(parts[2].as_str(), '+') {
            Err(error) => Err(error),
            Ok((target_start, target_count)) => Ok(
                DiffHunk { base_start, base_count, target_start, target_count, added_lines: 0, removed_lines: 0 },
            ),
        },
    }
}

/// What has been read of a patch: the finished hunks of each path, the paths of
/// the file at hand, and its open hunk.
#[verifier::ext_equal]
pub struct PatchView {
    pub by_path: Map<Seq<char>, Seq<DiffHunk>>,
    pub base_path: Option<Seq<char>>,
    pub path: Option<Seq<char>>,
    pub current: Option<DiffHunk>,
}

/// The hunks of each path, by what the lists hold.
pub open spec fn hunk_map(by_path: Map<Seq<char>, Vec<DiffHunk>>) -> Map<Seq<char>, Seq<DiffHunk>> {
    by_path.map_values(|hunks: Vec<DiffHunk>| hunks@)
}

/// The hunks of a path; none where the path does not occur.
pub open spec fn hunks_of(by_path: Map<Seq<char>, Seq<DiffHunk>>, path: Seq<char>) -> Seq<DiffHunk> {
    if by_path.contains_key(path) {
        by_path[path]
    } else {
        Seq::empty()
    }
}

/// A path in a file header of a patch; none for the null device.
pub open spec fn header_path(rest: Seq<char>, prefix: Seq<char>) -> Option<Seq<char>> {
    if rest == "/dev/null"@ {
        None
    } else if prefix.is_prefix_of(rest) {
        Some(rest.skip(prefix.len() as int))
    } else {
        Some(rest)
    }
}

impl PatchView {
    /// Nothing read yet.
    pub open spec fn initial() -> PatchView {
        PatchView { by_path: Map::empty(), base_path: None, path: None, current: None }
    }

    /// The open hunk added to those of the path at hand.
    pub open spec fn finished(self) -> PatchView {
        match (self.current, self.path) {
            (Some(hunk), Some(path)) => PatchView {
                by_path: self.by_path.insert(path, hunks_of(self.by_path, path).push(hunk)),
                current: None,
                ..self
            },
            _ => PatchView { current: None, ..self },
        }
    }

    /// One more line read. File headers only appear before the first hunk of a
    /// file, so inside a hunk a line is content whatever it looks like.
    pub open spec fn after_line(self, line: Seq<char>) -> Result<PatchView, ErrorView> {
        if "diff --git "@.is_prefix_of(line) {
            Ok(PatchView { base_path: None, path: None, ..self.finished() })
        } else if "@@ "@.is_prefix_of(line) {
            match hunk_header(line) {
                Ok(hunk) => Ok(PatchView { current: Some(hunk), ..self.finished() }),
                Err(error) => Err(error),
            }
        } else {
            match self.current {
                None => if "--- "@.is_prefix_of(line) {
                    Ok(PatchView { base_path: header_path(line.skip("--- "@.len() as int), "a/"@), ..self })
                } else if "+++ "@.is_prefix_of(line) {
                    Ok(
                        PatchView {
                            path: match header_path(line.skip("+++ "@.len() as int), "b/"@) {
                                Some(path) => Some(path),
                                None => self.base_path,
                            },
                            ..self
                        },
                    )
                } else {
                    Ok(self)
                },
                Some(hunk) => Ok(PatchView { current: Some(with_line(hunk, line)), ..self }),
            }
        }
    }
}

/// A hunk with one more content line counted.
pub open spec fn with_line(hunk: DiffHunk, line: Seq<char>) -> DiffHunk {
    if line.len() > 0 && line[0] == '+' {
        DiffHunk { added_lines: (hunk.added_lines + 1) as u32, ..hunk }
    } else if line.len() > 0 && line[0] == '-' {
        DiffHunk { removed_lines: (hunk.removed_lines + 1) as u32, ..hunk }
    } else {
        hunk
    }
}

/// The hunks of each path once all lines have been read.
pub open spec fn patch_from(state: PatchView, rest: Seq<Seq<char>>) -> Result<Map<Seq<char>, Seq<DiffHunk>>, ErrorView>
    decreases rest.len(),
{
    if rest.len() == 0 {
        Ok(state.finished().by_path)
    } else {
        match state.after_line(rest[0]) {
            Ok(next) => patch_from(next, rest.drop_first()),
            Err(error) => Err(error),
        }
    }
}

/// The added lines of hunks together.
pub open spec fn added_total(hunks: Seq<DiffHunk>) -> nat
    decreases hunks.len(),
{
    if hunks.len() == 0 {
        0
    } else {
        added_total(hunks.drop_last()) + hunks.last().added_lines as nat
    }
}

/// The removed lines of hunks together.
pub open spec fn removed_total(hunks: Seq<DiffHunk>) -> nat
    decreases hunks.len(),
{
    if hunks.len() == 0 {
        0
    } else {
        removed_total(hunks.drop_last()) + hunks.last().removed_lines as nat
    }
}

/// Whether no path has more counted lines than `read`, its open hunk included.
pub open spec fn counted_within(state: PatchView, read: nat) -> bool {
    &&& state.current matches Some(hunk) ==> hunk.added_lines <= read && hunk.removed_lines <= read
    &&& forall|path: Seq<char>| #[trigger]
        state.by_path.contains_key(path) ==> {
            let open = if state.path == Some(path) {
                state.current
            } else {
                None
            };
            &&& added_total(state.by_path[path]) + (match open {
                Some(hunk) => hunk.added_lines as nat,
                None => 0,
            }) <= read
            &&& removed_total(state.by_path[path]) + (match open {
                Some(hunk) => hunk.removed_lines as nat,
                None => 0,
            }) <= read
        }
}

proof fn lemma_finished_within(state: PatchView, read: nat)
    requires
        counted_within(state, read),
    ensures
        counted_within(state.finished(), read),
        state.finished().current is None,
{
    let done = state.finished();
    assert forall|path: Seq<char>| #[trigger] done.by_path.contains_key(path) implies added_total(done.by_path[path]) <= read
        && removed_total(done.by_path[path]) <= read by {
        match (state.current, state.path) {
            (Some(hunk), Some(here)) => {
                if path == here {
                    let held = hunks_of(state.by_path, here);
                    assert(held.push(hunk).drop_last() =~= held);
                    if !state.by_path.contains_key(here) {
                        assert(added_total(held) == 0);
                        assert(removed_total(held) == 0);
                    }
                } else {
                    assert(state.by_path.contains_key(path));
                }
            },
            _ => {
                assert(state.by_path.contains_key(path));
            },
        }
    }
}

proof fn lemma_line_within(state: PatchView, line: Seq<char>, read: nat)
    requires
        counted_within(state, read),
        read < u32::MAX,
    ensures
        state.after_line(line) matches Ok(next) ==> counted_within(next, read + 1),
{
    lemma_finished_within(state, read);
    match state.after_line(line) {
        Err(_) => {},
        Ok(next) => {
            let done = state.finished();
            assert forall|path: Seq<char>| #[trigger] next.by_path.contains_key(path) implies ({
                let open = if next.path == Some(path) {
                    next.current
                } else {
                    None
                };
                &&& added_total(next.by_path[path]) + (match open {
                    Some(hunk) => hunk.added_lines as nat,
                    None => 0,
                }) <= read + 1
                &&& removed_total(next.by_path[path]) + (match open {
                    Some(hunk) => hunk.removed_lines as nat,
                    None => 0,
                }) <= read + 1
            }) by {
                if "diff --git "@.is_prefix_of(line) || "@@ "@.is_prefix_of(line) {
                    assert(done.by_path.contains_key(path));
                } else {
                    assert(state.by_path.contains_key(path));
                }
            }
        },
    }
}

/// A patch counts no more added or removed lines for a path than it has lines.
pub proof fn lemma_patch_counts(state: PatchView, rest: Seq<Seq<char>>, read: nat)
    requires
        counted_within(state, read),
        read + rest.len() <= u32::MAX,
    ensures
        patch_from(state, rest) matches Ok(by_path) ==> forall|path: Seq<char>| #[trigger]
            by_path.contains_key(path) ==> added_total(by_path[path]) <= read + rest.len() && removed_total(by_path[path]) <= read
                + rest.len(),
    decreases rest.len(),
{
    if rest.len() == 0 {
        lemma_finished_within(state, read);
    } else {
        lemma_line_within(state, rest[0], read);
        match state.after_line(rest[0]) {
            Ok(next) => lemma_patch_counts(next, rest.drop_first(), read + 1),
            Err(_) => {},
        }
    }
}

/// Reads a patch line by line.
struct PatchReader {
    by_path: TextMap<Vec<DiffHunk>>,
    base_path: Option<String>,
    path: Option<String>,
    current: Option<DiffHunk>,
}

impl View for PatchReader {
    type V = PatchView;

    closed spec fn view(&self) -> PatchView {
        PatchView {
            by_path: hunk_map(self.by_path@),
            base_path: text_option(self.base_path),
            path: text_option(self.path),
            current: self.current,
        }
    }
}

impl PatchReader {
    fn finish_hunk(&mut self)
        ensures
            final(self)@ == old(self)@.finished(),
            final(self).base_path == old(self).base_path,
            final(self).path == old(self).path,
    {
        let ghost given = self@;
        match (&self.current, &self.path) {
            (Some(hunk), Some(path)) => {
                let key = path.clone();
                let ghost held = self.by_path@;
                let mut hunks = match self.by_path.remove(path.as_str()) {
                    Some(hunks) => hunks,
                    None => Vec::new(),
                };
                let ghost before_push = hunks@;
                hunks.push(*hunk);
                let ghost name = key@;
                let ghost pushed = hunks@;
                self.by_path.insert(key, hunks);
                proof {
                    assert(before_push =~= hunks_of(hunk_map(held), name));
                    assert(hunk_map(self.by_path@) =~= hunk_map(held).insert(name, pushed));
                }
            },
            _ => {},
        }
        self.current = None;
        assert(self@ =~= given.finished());
    }

    fn read_line(&mut self, line: &str) -> (r: Result<(), DiffScopeError>)
        requires
            old(self)@.current matches Some(hunk) ==> hunk.added_lines < u32::MAX && hunk.removed_lines < u32::MAX,
        ensures
            match r {
                Ok(()) => old(self)@.after_line(line@) == Ok::<PatchView, ErrorView>(final(self)@),
                Err(error) => old(self)@.after_line(line@) == Err::<PatchView, ErrorView>(error@),
            },
    {
        let ghost given = self@;
        if starts_with(line, "diff --git ") {
            self.finish_hunk();
            self.base_path = None;
            self.path = None;
            assert(self@ =~= (PatchView { base_path: None, path: None, ..given.finished() }));
        } else if starts_with(line, "@@ ") {
            self.finish_hunk();
            match parse_hunk_header(line) {
                Ok(hunk) => {
                    self.current = Some(hunk);
                    assert(self@ =~= (PatchView { current: Some(hunk), ..given.finished() }));
                },
                Err(error) => {
                    return Err(error);
                },
            }
        } else {
            match self.current {
                None => {
                    if let Some(rest) = crate::text::strip(line, "--- ") {
                        self.base_path = patch_path(rest.as_str(), "a/");
                        assert(Ok::<PatchView, ErrorView>(self@) == given.after_line(line@));
                    } else if let Some(rest) = crate::text::strip(line, "+++ ") {
                        self.path = match patch_path(rest.as_str(), "b/") {
                            Some(path) => Some(path),
                            None => crate::collections::copy_option(&self.base_path),
                        };
                        assert(Ok::<PatchView, ErrorView>(self@) == given.after_line(line@));
                    }
                },
                Some(hunk) => {
                    let first = first_char(line);
                    if first == Some('+') {
                        self.current = Some(DiffHunk { added_lines: hunk.added_lines + 1, ..hunk });
                    } else if first == Some('-') {
                        self.current = Some(DiffHunk { removed_lines: hunk.removed_lines + 1, ..hunk });
                    }
                    assert(self@ =~= (PatchView { current: Some(with_line(hunk, line@)), ..given }));
                },
            }
        }
        Ok(())
    }
}

/// The first character of a text.
fn first_char(s: &str) -> (r: Option<char>)
    ensures
        match r {
            Some(c) => s@.len() > 0 && s@[0] == c,
            None => s@.len() == 0,
        },
{
    if s.is_empty() {
        None
    } else {
        Some(s.get_char(0))
    }
}

fn patch_path(rest: &str, prefix: &str) -> (r: Option<String>)
    ensures
        text_option(r) == header_path(rest@, prefix@),
{
    if same_text(rest, "/dev/null") {
        return None;
    }
    match crate::text::strip(rest, prefix) {
        Some(path) => Some(path),
        None => Some(rest.to_owned()),
    }
}

/// Collect the hunks of every file in one patch, keyed by target path, or by
/// base path for deletions.
pub fn parse_patch(diff: &str) -> (r: Result<TextMap<Vec<DiffHunk>>, DiffScopeError>)
    requires
        lines(diff@).len() <= u32::MAX,
    ensures
        match r {
            Ok(by_path) => patch_from(PatchView::initial(), lines(diff@)) == Ok::<Map<Seq<char>, Seq<DiffHunk>>, ErrorView>(
                hunk_map(by_path@),
            ),
            Err(error) => patch_from(PatchView::initial(), lines(diff@)) == Err::<Map<Seq<char>, Seq<DiffHunk>>, ErrorView>(error@),
        },
        r matches Ok(by_path) ==> forall|path: Seq<char>| #[trigger]
            by_path@.contains_key(path) ==> added_total(by_path@[path]@) <= u32::MAX && removed_total(by_path@[path]@) <= u32::MAX,
{
    let all = lines_of(diff);
    let ghost names = lines(diff@);
    let mut reader = PatchReader { by_path: TextMap::new(), base_path: None, path: None, current: None };
    assert(reader@ =~= PatchView::initial());
    assert(names.skip(0) =~= names);
    let mut i: usize = 0;
    while i < all.len()
        invariant
            names == lines(diff@),
            texts(all@) == names,
            all.len() <= u32::MAX,
            i <= all.len(),
            counted_within(reader@, i as nat),
            patch_from(reader@, names.skip(i as int)) == patch_from(PatchView::initial(), names),
        decreases all.len() - i,
    {
        assert(names[i as int] == all@[i as int]@);
        assert(names.skip(i as int)[0] == names[i as int]);
        assert(names.skip(i as int).drop_first() =~= names.skip(i + 1));
        proof {
            lemma_line_within(reader@, names[i as int], i as nat);
        }
        match reader.read_line(all[i].as_str()) {
            Ok(()) => {},
            Err(error) => {
                return Err(error);
            },
        }
        i = i + 1;
    }
    assert(names.skip(all.len() as int).len() == 0);
    reader.finish_hunk();
    proof {
        assert(names.len() == all.len());
        lemma_patch_counts(PatchView::initial(), names, 0);
        let out = patch_from(PatchView::initial(), names)->Ok_0;
        assert(out == hunk_map(reader.by_path@));
        assert forall|path: Seq<char>| #[trigger] reader.by_path@.contains_key(path) implies added_total(reader.by_path@[path]@)
            <= u32::MAX && removed_total(reader.by_path@[path]@) <= u32::MAX by {
            assert(out.contains_key(path));
            assert(out[path] == reader.by_path@[path]@);
        }
    }
    Ok(reader.by_path)
}

/// The three fields of a numstat record: added and removed lines, and the path.
pub open spec fn numstat_fields(record: Seq<char>) -> Option<(Seq<char>, Seq<char>, Seq<char>)> {
    let n = span(record, other_than('\t'));
    if n >= record.len() {
        None
    } else {
        let rest = record.skip(n as int + 1);
        let m = span(rest, other_than('\t'));
        if m >= rest.len() {
            None
        } else {
            Some((record.take(n as int), rest.take(m as int), rest.skip(m as int + 1)))
        }
    }
}

/// The position of a character at or behind `from`, or the length.
fn find_char(chars: &Vec<char>, from: usize, wanted: char) -> (r: usize)
    requires
        from <= chars.len(),
    ensures
        from <= r <= chars.len(),
        r - from == span(chars@.skip(from as int), other_than(wanted)),
{
    let ghost rest = chars@.skip(from as int);
    let mut i: usize = from;
    while i < chars.len() && chars[i] != wanted
        invariant
            from <= i <= chars.len(),
            rest == chars@.skip(from as int),
            forall|k: int| 0 <= k < i - from ==> other_than(wanted)(#[trigger] rest[k]),
        decreases chars.len() - i,
    {
        assert(rest[i - from] == chars@[i as int]);
        i = i + 1;
    }
    proof {
        if i < chars.len() {
            assert(rest[i - from] == chars@[i as int]);
        }
        crate::text::lemma_span(rest, other_than(wanted), (i - from) as nat);
    }
    i
}

fn split_numstat(record: &str) -> (r: Option<(String, String, String)>)
    ensures
        match r {
            Some(fields) => numstat_fields(record@) == Some((fields.0@, fields.1@, fields.2@)),
            None => numstat_fields(record@) is None,
        },
{
    let chars = crate::text::chars_of(record);
    assert(record@.skip(0) =~= record@);
    let first = find_char(&chars, 0, '\t');
    if first >= chars.len() {
        return None;
    }
    let second = find_char(&chars, first + 1, '\t');
    if second >= chars.len() {
        return None;
    }
    let ghost rest = record@.skip(first + 1);
    assert(record@.take(first as int) =~= record@.subrange(0, first as int));
    assert(rest.take(second - first - 1) =~= record@.subrange(first + 1, second as int));
    assert(rest.skip(second - first - 1 + 1) =~= record@.subrange(second + 1, record@.len() as int));
    Some(
        (
            crate::text::text_of(&chars, 0, first),
            crate::text::text_of(&chars, first + 1, second),
            crate::text::text_of(&chars, second + 1, chars.len()),
        ),
    )
}

/// The outcome of reading the rest with a path added where both counts are `-`,
/// as Git writes them for a binary file.
pub open spec fn with_binary(
    added: Seq<char>,
    removed: Seq<char>,
    path: Seq<char>,
    rest: Result<Set<Seq<char>>, ErrorView>,
) -> Result<Set<Seq<char>>, ErrorView> {
    match rest {
        Ok(paths) => if added == "-"@ && removed == "-"@ {
            Ok(paths.insert(path))
        } else {
            Ok(paths)
        },
        Err(error) => Err(error),
    }
}

/// The binary paths that numstat records name from a position on. A rename
/// leaves the path field empty and follows with the base path and the target
/// path as records of their own.
pub open spec fn numstat(recs: Seq<Seq<u8>>, at: int) -> Result<Set<Seq<char>>, ErrorView>
    decreases recs.len() - at,
{
    if at < 0 || at >= recs.len() {
        Ok(Set::empty())
    } else {
        match text_in(recs[at], "numstat record"@) {
            Err(error) => Err(error),
            Ok(record) => match numstat_fields(record) {
                None => numstat(recs, at + 1),
                Some((added, removed, path)) => if path.len() == 0 {
                    match path_at(recs, at + 1, "numstat rename base path"@) {
                        Err(error) => Err(error),
                        Ok(_) => match path_at(recs, at + 2, "numstat rename target path"@) {
                            Err(error) => Err(error),
                            Ok(target) => with_binary(added, removed, target, numstat(recs, at + 3)),
                        },
                    }
                } else {
                    with_binary(added, removed, path, numstat(recs, at + 1))
                },
            },
        }
    }
}

/// More members in an outcome.
pub open spec fn joined_by(held: Set<Seq<char>>, rest: Result<Set<Seq<char>>, ErrorView>) -> Result<Set<Seq<char>>, ErrorView> {
    match rest {
        Ok(paths) => Ok(held.union(paths)),
        Err(error) => Err(error),
    }
}

/// Collect the paths that Git reports as binary.
pub fn parse_numstat_binary_paths(output: &[u8]) -> (r: Result<TextSet, DiffScopeError>)
    ensures
        match r {
            Ok(paths) => numstat(records(output@), 0) == Ok::<Set<Seq<char>>, ErrorView>(paths@),
            Err(error) => numstat(records(output@), 0) == Err::<Set<Seq<char>>, ErrorView>(error@),
        },
{
    let recs = split_nul(output);
    let ghost views = records(output@);
    let mut binary = TextSet::new();
    let mut index: usize = 0;
    proof {
        match numstat(views, 0) {
            Ok(paths) => {
                assert(Set::<Seq<char>>::empty().union(paths) =~= paths);
            },
            Err(_) => {},
        }
    }
    while index < recs.len()
        invariant
            views == records(output@),
            record_views(recs@) == views,
            index <= recs.len() + 2,
            joined_by(binary@, numstat(views, index as int)) == numstat(views, 0),
        decreases recs.len() + 2 - index,
    {
        let ghost start = index as int;
        let ghost held = binary@;
        assert(views[start] == recs@[start]@);
        let record = match utf8(recs[index].as_slice(), "numstat record") {
            Ok(text) => text,
            Err(error) => {
                return Err(error);
            },
        };
        index = index + 1;
        let (added, removed, inline_path) = match split_numstat(record.as_str()) {
            Some(fields) => fields,
            None => {
                continue;
            },
        };
        let path = if inline_path.as_str().is_empty() {
            match take_path(&recs, index, "numstat rename base path") {
                Ok(_) => {},
                Err(error) => {
                    return Err(error);
                },
            }
            index = index + 1;
            match take_path(&recs, index, "numstat rename target path") {
                Ok(text) => {
                    index = index + 1;
                    text
                },
                Err(error) => {
                    return Err(error);
                },
            }
        } else {
            inline_path
        };
        let ghost name = path@;
        assert(numstat(views, start) == with_binary(added@, removed@, name, numstat(views, index as int)));
        if same_text(added.as_str(), "-") && same_text(removed.as_str(), "-") {
            binary.insert(path);
            proof {
                match numstat(views, index as int) {
                    Ok(paths) => {
                        assert(held.union(paths.insert(name)) =~= held.insert(name).union(paths));
                    },
                    Err(_) => {},
                }
            }
        }
    }
    assert(binary@.union(Set::<Seq<char>>::empty()) =~= binary@);
    Ok(binary)
}

/// The condition of not being the newline byte.
pub open spec fn not_newline() -> spec_fn(u8) -> bool {
    |b: u8| b != 10
}

/// What a header of an object listing says of the expected object: its size, or
/// that it is missing.
pub open spec fn batch_header(header: Seq<char>, expected: Seq<char>) -> Result<Option<nat>, ErrorView> {
    let fields = words(header);
    if fields.len() == 0 {
        Err(ErrorView::InvalidGitOutput("cat-file batch header has no object id"@))
    } else if fields[0] != expected {
        Err(ErrorView::InvalidGitOutput("cat-file returned object "@ + fields[0] + ", expected "@ + expected))
    } else if fields.len() == 1 {
        Err(ErrorView::InvalidGitOutput("cat-file batch header has no type"@))
    } else if fields[1] == "missing"@ {
        Ok(None)
    } else if fields[1] != "blob"@ {
        Err(ErrorView::InvalidGitOutput("cat-file returned unsupported object type "@ + quoted_form(fields[1])))
    } else if fields.len() == 2 {
        Err(ErrorView::InvalidGitOutput("cat-file batch header has no size"@))
    } else {
        match numeral(fields[2], usize::MAX as nat) {
            Ok(size) => Ok(Some(size)),
            Err(fault) => Err(ErrorView::InvalidGitOutput("invalid cat-file batch object size: "@ + fault_text(fault))),
        }
    }
}

fn parse_batch_header(header: &str, expected: &str) -> (r: Result<Option<usize>, DiffScopeError>)
    ensures
        match r {
            Ok(Some(size)) => batch_header(header@, expected@) == Ok::<Option<nat>, ErrorView>(Some(size as nat)),
            Ok(None) => batch_header(header@, expected@) == Ok::<Option<nat>, ErrorView>(None),
            Err(error) => batch_header(header@, expected@) == Err::<Option<nat>, ErrorView>(error@),
        },
{
    let fields = words_of(header);
    if fields.len() == 0 {
        return Err(invalid("cat-file batch header has no object id".to_owned()));
    }
    assert(texts(fields@)[0] == fields@[0]@);
    if !same_text(fields[0].as_str(), expected) {
        return Err(invalid(join4("cat-file returned object ", fields[0].as_str(), ", expected ", expected)));
    }
    if fields.len() == 1 {
        return Err(invalid("cat-file batch header has no type".to_owned()));
    }
    assert(texts(fields@)[1] == fields@[1]@);
    if same_text(fields[1].as_str(), "missing") {
        return Ok(None);
    }
    if !same_text(fields[1].as_str(), "blob") {
        return Err(invalid(join2("cat-file returned unsupported object type ", quoted(fields[1].as_str()).as_str())));
    }
    if fields.len() == 2 {
        return Err(invalid("cat-file batch header has no size".to_owned()));
    }
    assert(texts(fields@)[2] == fields@[2]@);
    match parse_numeral(fields[2].as_str(), usize::MAX as u64) {
        Ok(size) => Ok(Some(size as usize)),
        Err(fault) => Err(invalid(join2("invalid cat-file batch object size: ", fault.to_text()))),
    }
}

/// The blobs that an object listing gives for the expected objects from an
/// offset on: a header line each, and behind it the content and a newline.
pub open spec fn batch(
    output: Seq<u8>,
    offset: int,
    oids: Seq<Seq<char>>,
    blobs: Map<Seq<char>, BlobView>,
) -> Result<Map<Seq<char>, BlobView>, ErrorView>
    decreases oids.len(),
{
    if oids.len() == 0 {
        Ok(blobs)
    } else {
        let rest = output.skip(offset);
        let n = span(rest, not_newline());
        let start = offset + n + 1;
        if n >= rest.len() {
            Err(ErrorView::InvalidGitOutput("truncated cat-file batch header"@))
        } else {
            match text_in(output.subrange(offset, offset + n), "cat-file batch header"@) {
                Err(error) => Err(error),
                Ok(header) => match batch_header(header, oids[0]) {
                    Err(error) => Err(error),
                    Ok(None) => batch(output, start, oids.drop_first(), blobs.insert(oids[0], BlobView::Missing)),
                    Ok(Some(size)) => if start + size > usize::MAX {
                        Err(ErrorView::InvalidGitOutput("cat-file batch object size overflow"@))
                    } else if start + size > output.len() {
                        Err(ErrorView::InvalidGitOutput("truncated cat-file batch object"@))
                    } else if start + size == output.len() || output[start + size] != 10 {
                        Err(ErrorView::InvalidGitOutput("cat-file batch object has no terminator"@))
                    } else {
                        batch(
                            output,
                            start + size + 1,
                            oids.drop_first(),
                            blobs.insert(oids[0], BlobView::Available(output.subrange(start, start + size))),
                        )
                    },
                },
            }
        }
    }
}

/// The blobs by what they hold.
pub open spec fn blob_map(blobs: Map<Seq<char>, BlobContent>) -> Map<Seq<char>, BlobView> {
    blobs.map_values(|blob: BlobContent| blob@)
}

/// Read an object listing that answers the given ids in ascending order.
pub fn parse_batch_blobs(output: &[u8], object_ids: &TextSet) -> (r: Result<TextMap<BlobContent>, DiffScopeError>)
    ensures
        match r {
            Ok(blobs) => batch(output@, 0, object_ids.keys(), Map::empty()) == Ok::<Map<Seq<char>, BlobView>, ErrorView>(
                blob_map(blobs@),
            ),
            Err(error) => batch(output@, 0, object_ids.keys(), Map::empty()) == Err::<Map<Seq<char>, BlobView>, ErrorView>(
                error@,
            ),
        },
{
    let count: usize = object_ids.len();
    let ghost oids = object_ids.keys();
    let mut blobs: TextMap<BlobContent> = TextMap::new();
    let mut offset: usize = 0;
    let mut i: usize = 0;
    assert(oids.skip(0) =~= oids);
    assert(blob_map(blobs@) =~= Map::empty());
    while i < count
        invariant
            count == oids.len(),
            oids == object_ids.keys(),
            i <= count,
            offset <= output.len(),
            batch(output@, offset as int, oids.skip(i as int), blob_map(blobs@)) == batch(output@, 0, oids, Map::empty()),
        decreases count - i,
    {
        let expected = object_ids.key_at(i);
        let ghost rest = output@.skip(offset as int);
        assert(oids.skip(i as int)[0] == oids[i as int]);
        assert(oids.skip(i as int).drop_first() =~= oids.skip(i + 1));
        let mut header_end: usize = offset;
        while header_end < output.len() && output[header_end] != 10
            invariant
                offset <= header_end <= output.len(),
                rest == output@.skip(offset as int),
                forall|k: int| 0 <= k < header_end - offset ==> not_newline()(#[trigger] rest[k]),
            decreases output.len() - header_end,
        {
            assert(rest[header_end - offset] == output@[header_end as int]);
            header_end = header_end + 1;
        }
        proof {
            if header_end < output.len() {
                assert(rest[header_end - offset] == output@[header_end as int]);
            }
            crate::text::lemma_span(rest, not_newline(), (header_end - offset) as nat);
        }
        if header_end >= output.len() {
            return Err(invalid("truncated cat-file batch header".to_owned()));
        }
        let header_bytes = bytes_between(output, offset, header_end);
        let header = match utf8(header_bytes.as_slice(), "cat-file batch header") {
            Ok(text) => text,
            Err(error) => {
                return Err(error);
            },
        };
        let start: usize = header_end + 1;
        let ghost held = blobs@;
        match parse_batch_header(header.as_str(), expected) {
            Err(error) => {
                return Err(error);
            },
            Ok(None) => {
                blobs.insert(expected.to_owned(), BlobContent::Missing);
                assert(blob_map(blobs@) =~= blob_map(held).insert(oids[i as int], BlobView::Missing));
                offset = start;
            },
            Ok(Some(size)) => {
                if size > usize::MAX - start {
                    return Err(invalid("cat-file batch object size overflow".to_owned()));
                }
                let end: usize = start + size;
                if end > output.len() {
                    return Err(invalid("truncated cat-file batch object".to_owned()));
                }
                if end == output.len() || output[end] != 10 {
                    return Err(invalid("cat-file batch object has no terminator".to_owned()));
                }
                let content = bytes_between(output, start, end);
                let ghost bytes = content@;
                blobs.insert(expected.to_owned(), BlobContent::Available(content));
                assert(blob_map(blobs@) =~= blob_map(held).insert(oids[i as int], BlobView::Available(bytes)));
                offset = end + 1;
            },
        }
        i = i + 1;
    }
    assert(oids.skip(count as int).len() == 0);
    Ok(blobs)
}

/// The path by which a change is looked up: the target path, or the base path
/// of a deletion.
pub open spec fn change_key(file: FileChangeView) -> Option<Seq<char>> {
    match file.target_path {
        Some(path) => Some(path),
        None => file.base_path,
    }
}

/// The blob of a binary side.
pub open spec fn binary_blob(oid: Option<Seq<char>>) -> BlobView {
    if oid is Some {
        BlobView::Binary
    } else {
        BlobView::NotApplicable
    }
}

/// A change with its hunks and line counts, and with its blobs where it is binary.
pub open spec fn with_hunks(file: FileChangeView, hunks: Seq<DiffHunk>, is_binary: bool) -> FileChangeView {
    FileChangeView {
        hunks,
        added_lines: added_total(hunks) as u32,
        removed_lines: removed_total(hunks) as u32,
        status: if is_binary {
            FileStatus::Binary
        } else {
            file.status
        },
        base_blob: if is_binary {
            binary_blob(file.old_blob_id)
        } else {
            file.base_blob
        },
        target_blob: if is_binary {
            binary_blob(file.new_blob_id)
        } else {
            file.target_blob
        },
        ..file
    }
}

/// The changes with their hunks and binary status. The hunks of a path go to
/// the first change that is looked up by it.
pub open spec fn hunks_attached(
    files: Seq<FileChangeView>,
    by_path: Map<Seq<char>, Seq<DiffHunk>>,
    binary: Set<Seq<char>>,
) -> Result<Seq<FileChangeView>, ErrorView>
    decreases files.len(),
{
    if files.len() == 0 {
        Ok(Seq::empty())
    } else {
        match change_key(files[0]) {
            None => Err(ErrorView::InvalidGitOutput("file change without any path"@)),
            Some(key) => followed_by(
                with_hunks(files[0], hunks_of(by_path, key), binary.contains(key)),
                hunks_attached(files.drop_first(), by_path.remove(key), binary),
            ),
        }
    }
}

/// The path by which a change is looked up.
pub fn diff_key(file: &FileChange) -> (r: Result<String, DiffScopeError>)
    ensures
        match r {
            Ok(key) => change_key(file@) == Some(key@),
            Err(error) => change_key(file@) is None && error@ == ErrorView::InvalidGitOutput("file change without any path"@),
        },
{
    match &file.target_path {
        Some(path) => Ok(path.clone()),
        None => match &file.base_path {
            Some(path) => Ok(path.clone()),
            None => Err(invalid("file change without any path".to_owned())),
        },
    }
}

fn blob_content_for_binary(oid: &Option<String>) -> (r: BlobContent)
    ensures
        r@ == binary_blob(text_option(*oid)),
{
    if oid.is_some() {
        BlobContent::Binary
    } else {
        BlobContent::NotApplicable
    }
}

fn count_lines(hunks: &Vec<DiffHunk>) -> (r: (u32, u32))
    requires
        added_total(hunks@) <= u32::MAX,
        removed_total(hunks@) <= u32::MAX,
    ensures
        r.0 == added_total(hunks@),
        r.1 == removed_total(hunks@),
{
    let mut added: u32 = 0;
    let mut removed: u32 = 0;
    let mut i: usize = 0;
    while i < hunks.len()
        invariant
            i <= hunks.len(),
            added == added_total(hunks@.take(i as int)),
            removed == removed_total(hunks@.take(i as int)),
            added_total(hunks@) <= u32::MAX,
            removed_total(hunks@) <= u32::MAX,
        decreases hunks.len() - i,
    {
        proof {
            assert(hunks@.take(i + 1).drop_last() =~= hunks@.take(i as int));
            lemma_totals_grow(hunks@, i + 1);
        }
        added = added + hunks[i].added_lines;
        removed = removed + hunks[i].removed_lines;
        i = i + 1;
    }
    assert(hunks@.take(i as int) =~= hunks@);
    (added, removed)
}

proof fn lemma_totals_grow(hunks: Seq<DiffHunk>, n: int)
    requires
        0 <= n <= hunks.len(),
    ensures
        added_total(hunks.take(n)) <= added_total(hunks),
        removed_total(hunks.take(n)) <= removed_total(hunks),
    decreases hunks.len() - n,
{
    if n < hunks.len() {
        lemma_totals_grow(hunks, n + 1);
        assert(hunks.take(n + 1).drop_last() =~= hunks.take(n));
    } else {
        assert(hunks.take(n) =~= hunks);
    }
}

/// Give every change its hunks and line counts, and mark the binary ones.
pub fn attach_hunks(files: Vec<FileChange>, hunks_by_path: TextMap<Vec<DiffHunk>>, binary_paths: &TextSet) -> (r: Result<Vec<FileChange>, DiffScopeError>)
    requires
        forall|path: Seq<char>| #[trigger]
            hunks_by_path@.contains_key(path) ==> added_total(hunks_by_path@[path]@) <= u32::MAX && removed_total(
                hunks_by_path@[path]@,
            ) <= u32::MAX,
    ensures
        changes_outcome(r) == hunks_attached(crate::change_views(files@), hunk_map(hunks_by_path@), binary_paths@),
{
    let ghost given = crate::change_views(files@);
    let ghost first_map = hunk_map(hunks_by_path@);
    let mut by_path = hunks_by_path;
    let mut files = files;
    let mut i: usize = 0;
    proof {
        assert(given.skip(0) =~= given);
        assert(given.take(0) =~= Seq::<FileChangeView>::empty());
        match hunks_attached(given, first_map, binary_paths@) {
            Ok(items) => {
                assert(Seq::<FileChangeView>::empty() + items =~= items);
            },
            Err(_) => {},
        }
        assert(crate::change_views(files@).take(0) =~= Seq::<FileChangeView>::empty());
    }
    #[verifier::loop_isolation(false)]
    while i < files.len()
        invariant
            i <= files.len() == given.len(),
            forall|k: int| i <= k < files.len() ==> (#[trigger] files@[k])@ == given[k],
            preceded_by(crate::change_views(files@).take(i as int), hunks_attached(given.skip(i as int), hunk_map(by_path@), binary_paths@))
                == hunks_attached(given, first_map, binary_paths@),
            forall|path: Seq<char>| #[trigger]
                by_path@.contains_key(path) ==> added_total(by_path@[path]@) <= u32::MAX && removed_total(by_path@[path]@)
                    <= u32::MAX,
        decreases files.len() - i,
    {
        assert(given.skip(i as int)[0] == given[i as int]);
        assert(given.skip(i as int).drop_first() =~= given.skip(i + 1));
        assert(files@[i as int]@ == given[i as int]);
        let ghost done = crate::change_views(files@).take(i as int);
        let ghost held = by_path@;
        let key = match diff_key(&files[i]) {
            Ok(key) => key,
            Err(error) => {
                return Err(error);
            },
        };
        let hunks = match by_path.remove(key.as_str()) {
            Some(hunks) => hunks,
            None => Vec::new(),
        };
        proof {
            assert(hunks@ =~= hunks_of(hunk_map(held), key@));
            assert(hunk_map(by_path@) =~= hunk_map(held).remove(key@));
            if !held.contains_key(key@) {
                assert(added_total(hunks@) == 0);
                assert(removed_total(hunks@) == 0);
            }
        }
        let ghost attached = hunks@;
        let (added, removed) = count_lines(&hunks);
        let is_binary = binary_paths.contains(key.as_str());
        let ghost one = with_hunks(given[i as int], attached, is_binary);
        let file = &mut files[i];
        file.hunks = hunks;
        file.added_lines = added;
        file.removed_lines = removed;
        if is_binary {
            file.status = FileStatus::Binary;
            file.base_blob = blob_content_for_binary(&file.old_blob_id);
            file.target_blob = blob_content_for_binary(&file.new_blob_id);
        }
        proof {
            assert(files@[i as int]@ =~= one);
            assert(crate::change_views(files@).take(i + 1) =~= done.push(one));
            match hunks_attached(given.skip(i + 1), hunk_map(by_path@), binary_paths@) {
                Ok(items) => {
                    assert(done + (seq![one] + items) =~= done.push(one) + items);
                },
                Err(_) => {},
            }
        }
        i = i + 1;
    }
    proof {
        assert(crate::change_views(files@).take(i as int) =~= crate::change_views(files@));
        assert(crate::change_views(files@) + Seq::<FileChangeView>::empty() =~= crate::change_views(files@));
    }
    Ok(files)
}

/// Whether an object id names a blob of a change that has readable blobs.
pub open spec fn wants_blob(file: FileChangeView, oid: Seq<char>) -> bool {
    &&& file.status != FileStatus::Binary
    &&& file.old_blob_id == Some(oid) || file.new_blob_id == Some(oid)
    &&& oid != zero_oid()
}

/// The objects whose content is needed: those of every change that is not binary.
pub fn wanted_objects(files: &Vec<FileChange>) -> (r: TextSet)
    ensures
        forall|oid: Seq<char>| #[trigger]
            r@.contains(oid) <==> exists|i: int| 0 <= i < files.len() && wants_blob(#[trigger] files@[i]@, oid),
        r.ordered(),
{
    let mut out = TextSet::new();
    let mut i: usize = 0;
    while i < files.len()
        invariant
            i <= files.len(),
            forall|oid: Seq<char>| #[trigger]
                out@.contains(oid) <==> exists|k: int| 0 <= k < i && wants_blob(#[trigger] files@[k]@, oid),
            out.ordered(),
        decreases files.len() - i,
    {
        let ghost held = out@;
        let file = &files[i];
        if file.status != FileStatus::Binary {
            if let Some(oid) = &file.old_blob_id {
                if !same_text(oid.as_str(), "0000000000000000000000000000000000000000") {
                    out.insert(oid.clone());
                }
            }
            if let Some(oid) = &file.new_blob_id {
                if !same_text(oid.as_str(), "0000000000000000000000000000000000000000") {
                    out.insert(oid.clone());
                }
            }
        }
        proof {
            let view = files@[i as int]@;
            assert forall|oid: Seq<char>| #[trigger] out@.contains(oid) <==> exists|k: int|
                0 <= k < i + 1 && wants_blob(#[trigger] files@[k]@, oid) by {
                assert(out@.contains(oid) <==> held.contains(oid) || wants_blob(view, oid));
                if held.contains(oid) {
                    let k = choose|k: int| 0 <= k < i && wants_blob(#[trigger] files@[k]@, oid);
                    assert(wants_blob(files@[k]@, oid));
                }
                if wants_blob(view, oid) {
                    assert(wants_blob(files@[i as int]@, oid));
                }
            }
        }
        i = i + 1;
    }
    out
}

/// The blob of a side that is not binary.
pub open spec fn side_blob(oid: Option<Seq<char>>, blobs: Map<Seq<char>, BlobView>) -> BlobView {
    match oid {
        None => BlobView::NotApplicable,
        Some(oid) => if blobs.contains_key(oid) {
            blobs[oid]
        } else {
            BlobView::Missing
        },
    }
}

/// A change with the blobs of its two sides.
pub open spec fn with_blobs(file: FileChangeView, blobs: Map<Seq<char>, BlobView>) -> FileChangeView {
    if file.status == FileStatus::Binary {
        file
    } else {
        FileChangeView {
            base_blob: side_blob(file.old_blob_id, blobs),
            target_blob: side_blob(file.new_blob_id, blobs),
            ..file
        }
    }
}

fn blob_content(oid: &Option<String>, blobs: &TextMap<BlobContent>) -> (r: BlobContent)
    ensures
        r@ == side_blob(text_option(*oid), blob_map(blobs@)),
{
    match oid {
        None => BlobContent::NotApplicable,
        Some(oid) => match blobs.get(oid.as_str()) {
            Some(blob) => blob.copy(),
            None => BlobContent::Missing,
        },
    }
}

/// Give every change that is not binary the blobs of its two sides.
pub fn attach_blobs(files: Vec<FileChange>, blobs: &TextMap<BlobContent>) -> (r: Vec<FileChange>)
    ensures
        crate::change_views(r@) == crate::change_views(files@).map_values(|file: FileChangeView| with_blobs(file, blob_map(blobs@))),
{
    let ghost given = crate::change_views(files@);
    let mut files = files;
    let mut i: usize = 0;
    #[verifier::loop_isolation(false)]
    while i < files.len()
        invariant
            i <= files.len() == given.len(),
            forall|k: int| 0 <= k < i ==> (#[trigger] files@[k])@ == with_blobs(given[k], blob_map(blobs@)),
            forall|k: int| i <= k < files.len() ==> (#[trigger] files@[k])@ == given[k],
        decreases files.len() - i,
    {
        assert(files@[i as int]@ == given[i as int]);
        if files[i].status != FileStatus::Binary {
            let file = &mut files[i];
            file.base_blob = blob_content(&file.old_blob_id, blobs);
            file.target_blob = blob_content(&file.new_blob_id, blobs);
        }
        assert(files@[i as int]@ =~= with_blobs(given[i as int], blob_map(blobs@)));
        i = i + 1;
    }
    assert(crate::change_views(files@) =~= given.map_values(|file: FileChangeView| with_blobs(file, blob_map(blobs@))));
    files
}

/// Where one change stands relative to another: by the path it is looked up by,
/// and then by its base path.
pub open spec fn change_rank(a: FileChangeView, b: FileChangeView) -> Rank {
    otherwise(option_rank(change_key(a), change_key(b)), option_rank(a.base_path, b.base_path))
}

/// Where one change stands relative to another.
pub fn compare_file_changes(left: &FileChange, right: &FileChange) -> (r: Rank)
    ensures
        r == change_rank(left@, right@),
{
    let left_key = if left.target_path.is_some() {
        &left.target_path
    } else {
        &left.base_path
    };
    let right_key = if right.target_path.is_some() {
        &right.target_path
    } else {
        &right.base_path
    };
    or_else(compare_options(left_key, right_key), compare_options(&left.base_path, &right.base_path))
}

/// The added lines of all changes together.
pub open spec fn all_added(files: Seq<FileChangeView>) -> nat
    decreases files.len(),
{
    if files.len() == 0 {
        0
    } else {
        all_added(files.drop_last()) + files.last().added_lines as nat
    }
}

/// The removed lines of all changes together.
pub open spec fn all_removed(files: Seq<FileChangeView>) -> nat
    decreases files.len(),
{
    if files.len() == 0 {
        0
    } else {
        all_removed(files.drop_last()) + files.last().removed_lines as nat
    }
}

/// How many changes are binary.
pub open spec fn binary_count(files: Seq<FileChangeView>) -> nat
    decreases files.len(),
{
    if files.len() == 0 {
        0
    } else {
        binary_count(files.drop_last()) + if files.last().status == FileStatus::Binary {
            1nat
        } else {
            0
        }
    }
}

/// The totals of all changes.
pub open spec fn summary_of(files: Seq<FileChangeView>) -> ChangeSummary {
    ChangeSummary {
        changed_files: files.len() as u32,
        added_lines: all_added(files) as u32,
        removed_lines: all_removed(files) as u32,
        binary_files: binary_count(files) as u32,
    }
}

proof fn lemma_summary_grows(files: Seq<FileChangeView>, n: int)
    requires
        0 <= n <= files.len(),
    ensures
        all_added(files.take(n)) <= all_added(files),
        all_removed(files.take(n)) <= all_removed(files),
        binary_count(files.take(n)) <= n,
    decreases files.len() - n,
{
    lemma_binary_count(files.take(n));
    if n < files.len() {
        lemma_summary_grows(files, n + 1);
        assert(files.take(n + 1).drop_last() =~= files.take(n));
    } else {
        assert(files.take(n) =~= files);
    }
}

proof fn lemma_binary_count(files: Seq<FileChangeView>)
    ensures
        binary_count(files) <= files.len(),
    decreases files.len(),
{
    if files.len() > 0 {
        lemma_binary_count(files.drop_last());
    }
}

/// Count the totals of all changes.
pub fn summarize(files: &Vec<FileChange>) -> (r: ChangeSummary)
    requires
        files.len() <= u32::MAX,
        all_added(crate::change_views(files@)) <= u32::MAX,
        all_removed(crate::change_views(files@)) <= u32::MAX,
    ensures
        r == summary_of(crate::change_views(files@)),
{
    let ghost views = crate::change_views(files@);
    let mut out = ChangeSummary::default();
    let mut i: usize = 0;
    while i < files.len()
        invariant
            views == crate::change_views(files@),
            files.len() <= u32::MAX,
            all_added(views) <= u32::MAX,
            all_removed(views) <= u32::MAX,
            i <= files.len(),
            out.changed_files == i,
            out.added_lines == all_added(views.take(i as int)),
            out.removed_lines == all_removed(views.take(i as int)),
            out.binary_files == binary_count(views.take(i as int)),
        decreases files.len() - i,
    {
        proof {
            assert(views.take(i + 1).drop_last() =~= views.take(i as int));
            assert(views[i as int] == files@[i as int]@);
            lemma_summary_grows(views, i + 1);
        }
        out.changed_files = out.changed_files + 1;
        out.added_lines = out.added_lines + files[i].added_lines;
        out.removed_lines = out.removed_lines + files[i].removed_lines;
        if files[i].status == FileStatus::Binary {
            out.binary_files = out.binary_files + 1;
        }
        i = i + 1;
    }
    assert(views.take(i as int) =~= views);
    out
}

proof fn lemma_totals_of_placed(sorted: Seq<FileChangeView>, item: FileChangeView, in_order: spec_fn(FileChangeView, FileChangeView) -> bool)
    ensures
        all_added(placed(sorted, item, in_order)) == all_added(sorted) + item.added_lines,
        all_removed(placed(sorted, item, in_order)) == all_removed(sorted) + item.removed_lines,
        binary_count(placed(sorted, item, in_order)) == binary_count(sorted) + if item.status == FileStatus::Binary {
            1nat
        } else {
            0
        },
    decreases sorted.len(),
{
    if sorted.len() == 0 || in_order(sorted.last(), item) {
        assert(sorted.push(item).drop_last() =~= sorted);
    } else {
        lemma_totals_of_placed(sorted.drop_last(), item, in_order);
        let head = placed(sorted.drop_last(), item, in_order);
        assert(head.push(sorted.last()).drop_last() =~= head);
    }
}

/// Sorting the changes does not change their totals.
pub proof fn lemma_summary_ignores_order(files: Seq<FileChangeView>, in_order: spec_fn(FileChangeView, FileChangeView) -> bool)
    ensures
        summary_of(arranged(files, in_order)) == summary_of(files),
        all_added(arranged(files, in_order)) == all_added(files),
        all_removed(arranged(files, in_order)) == all_removed(files),
        binary_count(arranged(files, in_order)) == binary_count(files),
    decreases files.len(),
{
    lemma_arranged_keeps(files, in_order);
    if files.len() > 0 {
        lemma_summary_ignores_order(files.drop_last(), in_order);
        lemma_totals_of_placed(arranged(files.drop_last(), in_order), files.last(), in_order);
    }
}

/// The changes of an inventory stand in ascending order of the path they are
/// looked up by.
pub proof fn lemma_inventory_sorted(files: Seq<FileChangeView>)
    ensures
        in_sequence(arranged(files, by_rank(change_order())), by_rank(change_order())),
        arranged(files, by_rank(change_order())).to_multiset() == files.to_multiset(),
{
    lemma_options_lawful();
    let options = |a: Option<Seq<char>>, b: Option<Seq<char>>| option_rank(a, b);
    let key = |f: FileChangeView| change_key(f);
    let base = |f: FileChangeView| f.base_path;
    lemma_lawful_by(options, key);
    lemma_lawful_by(options, base);
    let first = |a: FileChangeView, b: FileChangeView| options(key(a), key(b));
    let second = |a: FileChangeView, b: FileChangeView| options(base(a), base(b));
    lemma_lawful_otherwise(first, second);
    assert(change_order() =~= |a: FileChangeView, b: FileChangeView| otherwise(first(a, b), second(a, b)));
    lemma_sorted_by_rank(files, change_order());
    lemma_arranged_keeps(files, by_rank(change_order()));
}

/// The ranks by which an inventory is sorted.
pub open spec fn change_order() -> spec_fn(FileChangeView, FileChangeView) -> Rank {
    |a: FileChangeView, b: FileChangeView| change_rank(a, b)
}

/// The inventory of the changes between two revisions, sorted by path.
pub fn build_inventory(repository_path: String, base: ResolvedRevision, target: ResolvedRevision, files: Vec<FileChange>) -> (r: ChangeInventory)
    requires
        files.len() <= u32::MAX,
        all_added(crate::change_views(files@)) <= u32::MAX,
        all_removed(crate::change_views(files@)) <= u32::MAX,
    ensures
        r.repository_path@ == repository_path@,
        r.base == base,
        r.target == target,
        crate::change_views(r.files@) == arranged(crate::change_views(files@), by_rank(change_order())),
        r.summary == summary_of(crate::change_views(files@)),
{
    let ghost given = crate::change_views(files@);
    let mut files = files;
    let rank_of = |a: &FileChange, b: &FileChange| -> (r: Rank)
        ensures
            r == change_rank(a@, b@),
    {
        compare_file_changes(a, b)
    };
    arrange_by::<FileChange, FileChangeView, _>(&mut files, rank_of, Ghost(|file: FileChange| file@), Ghost(change_order()));
    proof {
        lemma_summary_ignores_order(given, by_rank(change_order()));
        lemma_arranged_keeps(given, by_rank(change_order()));
    }
    let summary = summarize(&files);
    ChangeInventory { repository_path, base, target, files, summary }
}

/// An object listing that is read without a fault answers every object that was
/// asked for, and nothing else.
pub proof fn lemma_batch_answers_every_object(output: Seq<u8>, offset: int, oids: Seq<Seq<char>>, blobs: Map<Seq<char>, BlobView>)
    ensures
        match batch(output, offset, oids, blobs) {
            Ok(answered) => answered.dom() == blobs.dom().union(oids.to_set()),
            Err(_) => true,
        },
    decreases oids.len(),
{
    if oids.len() == 0 {
        assert(blobs.dom() =~= blobs.dom().union(oids.to_set()));
    } else {
        let rest = output.skip(offset);
        let n = span(rest, not_newline());
        let start = offset + n + 1;
        let others = oids.drop_first();
        assert(oids =~= seq![oids[0]] + others);
        assert forall|id: Seq<char>| oids.to_set().contains(id) <==> id == oids[0] || others.to_set().contains(id) by {
            if oids.contains(id) && id != oids[0] {
                let k = choose|k: int| 0 <= k < oids.len() && oids[k] == id;
                assert(others[k - 1] == id);
            }
            if others.contains(id) {
                let k = choose|k: int| 0 <= k < others.len() && others[k] == id;
                assert(oids[k + 1] == id);
            }
        }
        if n < rest.len() {
            if let Ok(header) = text_in(output.subrange(offset, offset + n), "cat-file batch header"@) {
                match batch_header(header, oids[0]) {
                    Ok(None) => {
                        let more = blobs.insert(oids[0], BlobView::Missing);
                        lemma_batch_answers_every_object(output, start, others, more);
                        assert(more.dom().union(others.to_set()) =~= blobs.dom().union(oids.to_set()));
                    },
                    Ok(Some(size)) => {
                        let more = blobs.insert(oids[0], BlobView::Available(output.subrange(start, start + size)));
                        lemma_batch_answers_every_object(output, start + size + 1, others, more);
                        assert(more.dom().union(others.to_set()) =~= blobs.dom().union(oids.to_set()));
                    },
                    Err(_) => {},
                }
            }
        }
    }
}

} // verus!

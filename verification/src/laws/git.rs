//! What is read of what Git writes.

use vstd::prelude::*;

use crate::git::{
    added_total, all_added, all_removed, bare_change, batch, batch_header, binary_count, hunk_header, hunk_range, hunks_attached, hunks_of, numstat,
    numstat_fields, patch_from, raw_header, removed_total, summary_of, text_in, with_blobs, PatchView, RawChangeView,
};
use crate::laws::counting::{how_many, lemma_how_many_same, sum};
use crate::laws::words::{lacks, lemma_span_up_to};
use crate::text::{decimal, digit, digits_value, is_space, lemma_decimal, lemma_span, numeral, split_on, words};
use crate::{BlobView, DiffHunk, ErrorView, FileChangeView, FileStatus};

verus! {

/// Whether a text is a word: it is not empty and holds no white space.
pub open spec fn is_word(s: Seq<char>) -> bool {
    s.len() > 0 && forall|i: int| 0 <= i < s.len() ==> !is_space(#[trigger] s[i])
}

/// A word and a space in front of a text are one word more.
pub proof fn lemma_words_part_at_spaces(first: Seq<char>, rest: Seq<char>)
    requires
        is_word(first),
    ensures
        words(first + seq![' '] + rest) == seq![first] + words(rest),
        words(first) == seq![first],
{
    let s = first + seq![' '] + rest;
    let keep = |c: char| !is_space(c);
    assert(s[0] == first[0]);
    assert forall|i: int| 0 <= i < first.len() implies keep(#[trigger] s[i]) by {
        assert(s[i] == first[i]);
    }
    assert(s[first.len() as int] == ' ');
    assert(is_space(' '));
    lemma_span(s, keep, first.len());
    assert(s.take(first.len() as int) =~= first);
    let tail = s.skip(first.len() as int);
    assert(tail[0] == ' ');
    assert(tail.drop_first() =~= rest);
    assert(words(tail) == words(rest));
    assert(!is_space(first[0]));
    assert(words(s) =~= seq![first] + words(tail));
    assert forall|i: int| 0 <= i < first.len() implies keep(#[trigger] first[i]) by {
        assert(!is_space(first[i]));
    }
    lemma_span(first, keep, first.len());
    assert(first.take(first.len() as int) =~= first);
    let end = first.skip(first.len() as int);
    assert(words(end) =~= Seq::empty());
    assert(words(first) =~= seq![first] + words(end));
}

proof fn lemma_digits(n: nat, tail: Seq<char>, max: nat)
    requires
        n <= max,
    ensures
        digits_value(decimal(n) + tail, 0, max) == digits_value(tail, n, max),
    decreases n,
{
    assert(forall|k: nat| k < 10 ==> '0' <= #[trigger] digit(k) <= '9' && (digit(k) as u32 - '0' as u32) == k);
    if n < 10 {
        let s = decimal(n) + tail;
        assert(s[0] == digit(n));
        assert(s.drop_first() =~= tail);
    } else {
        let last = seq![digit(n % 10)];
        let rest = last + tail;
        lemma_digits(n / 10, rest, max);
        assert(decimal(n) + tail =~= decimal(n / 10) + rest);
        assert(rest[0] == digit(n % 10));
        assert(rest.drop_first() =~= tail);
        assert(n == (n / 10) * 10 + n % 10);
    }
}

/// A number is read back from its numeral.
pub proof fn lemma_number_is_read_back(n: nat, max: nat)
    requires
        n <= max,
    ensures
        numeral(decimal(n), max) == Ok::<nat, crate::text::NumberFault>(n),
{
    lemma_decimal(n);
    lemma_digits(n, Seq::empty(), max);
    assert(decimal(n) + Seq::<char>::empty() =~= decimal(n));
    assert('0' <= decimal(n)[0]);
}

proof fn lemma_decimal_lacks(n: nat, c: char)
    requires
        c < '0',
    ensures
        lacks(decimal(n), c),
{
    lemma_decimal(n);
}

/// A range of a hunk is read as the line and the count it is written with, and
/// as one line where no count is written.
pub proof fn lemma_hunk_range_is_read(sign: char, start: u32, count: u32)
    ensures
        hunk_range(seq![sign] + decimal(start as nat) + seq![','] + decimal(count as nat), sign) == Ok::<(u32, u32), ErrorView>((start, count)),
        hunk_range(seq![sign] + decimal(start as nat), sign) == Ok::<(u32, u32), ErrorView>((start, 1u32)),
{
    let a = decimal(start as nat);
    let b = decimal(count as nat);
    lemma_number_is_read_back(start as nat, u32::MAX as nat);
    lemma_number_is_read_back(count as nat, u32::MAX as nat);
    lemma_decimal_lacks(start as nat, ',');
    lemma_decimal_lacks(count as nat, ',');
    let both = seq![sign] + a + seq![','] + b;
    assert(both.drop_first() =~= a + (seq![','] + b));
    lemma_span_up_to(a, seq![','] + b, ',');
    let s = a + (seq![','] + b);
    assert(s.take(a.len() as int) =~= a);
    assert(s.skip(a.len() as int + 1) =~= b);
    lemma_span_up_to(b, Seq::empty(), ',');
    assert(b + Seq::<char>::empty() =~= b);
    assert(split_on(b, ',') =~= seq![b]);
    assert(split_on(s, ',') =~= seq![a, b]);
    let one = seq![sign] + a;
    assert(one.drop_first() =~= a);
    lemma_span_up_to(a, Seq::empty(), ',');
    assert(a + Seq::<char>::empty() =~= a);
    assert(split_on(a, ',') =~= seq![a]);
}

/// The header of a hunk gives the lines of the base side behind a minus sign
/// and those of the target side behind a plus sign.
pub proof fn lemma_hunk_header_is_read(base_start: u32, base_count: u32, target_start: u32, target_count: u32, rest: Seq<char>)
    ensures
        hunk_header(
            seq!['@', '@', ' '] + (seq!['-'] + decimal(base_start as nat) + seq![','] + decimal(base_count as nat)) + seq![' '] + (seq!['+'] + decimal(
                target_start as nat,
            ) + seq![','] + decimal(target_count as nat)) + seq![' '] + rest,
        ) == Ok::<DiffHunk, ErrorView>(
            DiffHunk { base_start, base_count, target_start, target_count, added_lines: 0, removed_lines: 0 },
        ),
{
    let base = seq!['-'] + decimal(base_start as nat) + seq![','] + decimal(base_count as nat);
    let target = seq!['+'] + decimal(target_start as nat) + seq![','] + decimal(target_count as nat);
    let mark = seq!['@', '@'];
    lemma_hunk_range_is_read('-', base_start, base_count);
    lemma_hunk_range_is_read('+', target_start, target_count);
    lemma_decimal(base_start as nat);
    lemma_decimal(base_count as nat);
    lemma_decimal(target_start as nat);
    lemma_decimal(target_count as nat);
    assert(is_word(mark));
    assert(is_word(base)) by {
        lemma_range_is_word('-', base_start, base_count);
    }
    assert(is_word(target)) by {
        lemma_range_is_word('+', target_start, target_count);
    }
    lemma_words_part_at_spaces(target, rest);
    lemma_words_part_at_spaces(base, target + seq![' '] + rest);
    lemma_words_part_at_spaces(mark, base + seq![' '] + (target + seq![' '] + rest));
    let line = seq!['@', '@', ' '] + base + seq![' '] + target + seq![' '] + rest;
    assert(line =~= mark + seq![' '] + (base + seq![' '] + (target + seq![' '] + rest)));
    let parts = words(line);
    assert(parts == seq![mark] + (seq![base] + (seq![target] + words(rest))));
    assert(parts[1] == base && parts[2] == target);
}

proof fn lemma_range_is_word(sign: char, start: u32, count: u32)
    requires
        sign == '-' || sign == '+',
    ensures
        is_word(seq![sign] + decimal(start as nat) + seq![','] + decimal(count as nat)),
{
    let a = decimal(start as nat);
    let b = decimal(count as nat);
    lemma_decimal(start as nat);
    lemma_decimal(count as nat);
    let s = seq![sign] + a + seq![','] + b;
    assert forall|i: int| 0 <= i < s.len() implies !is_space(#[trigger] s[i]) by {
        if 0 < i <= a.len() {
            assert(s[i] == a[i - 1]);
        } else if i > a.len() + 1 {
            assert(s[i] == b[i - a.len() - 2]);
        }
    }
}

/// Whether a line is content of a hunk: it opens neither a hunk nor a file.
pub open spec fn is_content(line: Seq<char>) -> bool {
    !"diff --git "@.is_prefix_of(line) && !"@@ "@.is_prefix_of(line)
}

/// The condition of a place that a line with a mark stands there.
pub open spec fn marked(body: Seq<Seq<char>>, mark: char) -> spec_fn(int) -> bool {
    |i: int| body[i].len() > 0 && body[i][0] == mark
}

/// The lines of a hunk with a plus are counted as added and those with a minus
/// as removed, and no others, whatever they look like.
#[verifier::rlimit(60)]
#[verifier::spinoff_prover]
pub proof fn lemma_hunk_counts_its_lines(state: PatchView, hunk: DiffHunk, body: Seq<Seq<char>>, rest: Seq<Seq<char>>)
    requires
        state.current == Some(hunk),
        forall|i: int| 0 <= i < body.len() ==> is_content(#[trigger] body[i]),
        hunk.added_lines + body.len() <= u32::MAX,
        hunk.removed_lines + body.len() <= u32::MAX,
    ensures
        patch_from(state, body + rest) == patch_from(
            PatchView {
                current: Some(
                    DiffHunk {
                        added_lines: (hunk.added_lines + how_many(body.len() as int, marked(body, '+'))) as u32,
                        removed_lines: (hunk.removed_lines + how_many(body.len() as int, marked(body, '-'))) as u32,
                        ..hunk
                    },
                ),
                ..state
            },
            rest,
        ),
        how_many(body.len() as int, marked(body, '+')) <= body.len(),
        how_many(body.len() as int, marked(body, '-')) <= body.len(),
    decreases body.len(),
{
    let n = body.len() as int;
    if n == 0 {
        assert(body + rest =~= rest);
    } else {
        let shorter = body.drop_last();
        let line = body.last();
        assert forall|i: int| 0 <= i < shorter.len() implies is_content(#[trigger] shorter[i]) by {
            assert(shorter[i] == body[i]);
        }
        assert(body + rest =~= shorter + (seq![line] + rest));
        lemma_hunk_counts_its_lines(state, hunk, shorter, seq![line] + rest);
        lemma_how_many_same(n - 1, marked(body, '+'), marked(shorter, '+'));
        lemma_how_many_same(n - 1, marked(body, '-'), marked(shorter, '-'));
        let read = PatchView {
            current: Some(
                DiffHunk {
                    added_lines: (hunk.added_lines + how_many(n - 1, marked(shorter, '+'))) as u32,
                    removed_lines: (hunk.removed_lines + how_many(n - 1, marked(shorter, '-'))) as u32,
                    ..hunk
                },
            ),
            ..state
        };
        let tail = seq![line] + rest;
        assert(tail[0] == line);
        assert(tail.drop_first() =~= rest);
        assert(is_content(body[n - 1]));
    }
}

/// What opens a hunk ends the one before it, which goes to the file at hand.
pub proof fn lemma_hunks_go_to_their_file(state: PatchView, hunk: DiffHunk, path: Seq<char>, line: Seq<char>, rest: Seq<Seq<char>>)
    requires
        state.current == Some(hunk),
        state.path == Some(path),
        "@@ "@.is_prefix_of(line),
        !"diff --git "@.is_prefix_of(line),
        hunk_header(line) is Ok,
    ensures
        patch_from(state, seq![line] + rest) == patch_from(
            PatchView {
                by_path: state.by_path.insert(path, hunks_of(state.by_path, path).push(hunk)),
                current: Some(hunk_header(line)->Ok_0),
                ..state
            },
            rest,
        ),
        patch_from(state, Seq::empty()) == Ok::<Map<Seq<char>, Seq<DiffHunk>>, ErrorView>(
            state.by_path.insert(path, hunks_of(state.by_path, path).push(hunk)),
        ),
{
    let all = seq![line] + rest;
    assert(all[0] == line);
    assert(all.drop_first() =~= rest);
}

/// A file header names the target path behind `b/`, or, where the target is the
/// null device, the base path behind `a/`.
#[verifier::rlimit(60)]
#[verifier::spinoff_prover]
pub proof fn lemma_file_header_names_its_path(state: PatchView, base: Seq<char>, target: Seq<char>, rest: Seq<Seq<char>>)
    requires
        state.current is None,
        "a/"@ + base != "/dev/null"@,
        "b/"@ + target != "/dev/null"@,
    ensures
        patch_from(state, seq!["--- a/"@ + base, "+++ b/"@ + target] + rest) == patch_from(
            PatchView { base_path: Some(base), path: Some(target), ..state },
            rest,
        ),
        patch_from(state, seq!["--- a/"@ + base, "+++ /dev/null"@] + rest) == patch_from(
            PatchView { base_path: Some(base), path: Some(base), ..state },
            rest,
        ),
        patch_from(state, seq!["--- /dev/null"@, "+++ b/"@ + target] + rest) == patch_from(
            PatchView { base_path: None, path: Some(target), ..state },
            rest,
        ),
{
    reveal_strlit("--- ");
    reveal_strlit("--- a/");
    reveal_strlit("+++ ");
    reveal_strlit("+++ b/");
    reveal_strlit("a/");
    reveal_strlit("b/");
    reveal_strlit("@@ ");
    reveal_strlit("diff --git ");
    reveal_strlit("+++ /dev/null");
    reveal_strlit("--- /dev/null");
    reveal_strlit("/dev/null");
    let first = "--- a/"@ + base;
    let second = "+++ b/"@ + target;
    lemma_not_prefix("diff --git "@, first);
    lemma_not_prefix("diff --git "@, second);
    lemma_not_prefix("@@ "@, first);
    lemma_not_prefix("@@ "@, second);
    lemma_not_prefix("diff --git "@, "+++ /dev/null"@);
    lemma_not_prefix("@@ "@, "+++ /dev/null"@);
    lemma_not_prefix("diff --git "@, "--- /dev/null"@);
    lemma_not_prefix("@@ "@, "--- /dev/null"@);
    lemma_not_prefix("--- "@, second);
    lemma_not_prefix("--- "@, "+++ /dev/null"@);
    assert(first.subrange(0, 4) =~= "--- "@);
    assert(second.subrange(0, 4) =~= "+++ "@);
    assert("+++ /dev/null"@.subrange(0, 4) =~= "+++ "@);
    assert("--- /dev/null"@.subrange(0, 4) =~= "--- "@);
    assert(first.skip(4) =~= "a/"@ + base);
    assert(second.skip(4) =~= "b/"@ + target);
    assert("+++ /dev/null"@.skip(4) =~= "/dev/null"@);
    assert("--- /dev/null"@.skip(4) =~= "/dev/null"@);
    assert(("a/"@ + base).subrange(0, 2) =~= "a/"@);
    assert(("b/"@ + target).subrange(0, 2) =~= "b/"@);
    assert(("a/"@ + base).skip(2) =~= base);
    assert(("b/"@ + target).skip(2) =~= target);
    lemma_two_lines(state, first, second, rest);
    lemma_two_lines(state, first, "+++ /dev/null"@, rest);
    lemma_two_lines(state, "--- /dev/null"@, second, rest);
}

proof fn lemma_not_prefix(prefix: Seq<char>, s: Seq<char>)
    requires
        prefix.len() > 0,
        s.len() > 0,
        prefix[0] != s[0],
    ensures
        !prefix.is_prefix_of(s),
{
    if prefix.is_prefix_of(s) {
        assert(s.subrange(0, prefix.len() as int)[0] == s[0]);
    }
}

proof fn lemma_two_lines(state: PatchView, first: Seq<char>, second: Seq<char>, rest: Seq<Seq<char>>)
    ensures
        patch_from(state, seq![first, second] + rest) == match state.after_line(first) {
            Err(error) => Err(error),
            Ok(next) => match next.after_line(second) {
                Err(error) => Err(error),
                Ok(last) => patch_from(last, rest),
            },
        },
{
    let all = seq![first, second] + rest;
    assert(all[0] == first);
    let tail = all.drop_first();
    assert(tail[0] == second);
    assert(tail.drop_first() =~= rest);
    reveal_with_fuel(patch_from, 3);
}

/// A raw header gives the object ids of both sides, none where they are zero,
/// and the status by its first letter.
pub proof fn lemma_raw_header_is_read(
    modes: (Seq<char>, Seq<char>),
    old_oid: Seq<char>,
    new_oid: Seq<char>,
    status: Seq<char>,
)
    requires
        is_word(modes.0),
        is_word(modes.1),
        is_word(old_oid),
        is_word(new_oid),
        is_word(status),
    ensures
        ({
            let header = modes.0 + seq![' '] + (modes.1 + seq![' '] + (old_oid + seq![' '] + (new_oid + seq![' '] + status)));
            let byte = crate::git::first_byte(status);
            &&& raw_header(header) is Ok <==> byte == Some(0x41u8) || byte == Some(0x44u8) || byte == Some(0x4du8) || byte == Some(0x52u8)
            &&& raw_header(header) matches Ok(raw) ==> {
                &&& raw.status == FileStatus::Added <==> byte == Some(0x41u8)
                &&& raw.status == FileStatus::Deleted <==> byte == Some(0x44u8)
                &&& raw.status == FileStatus::Modified <==> byte == Some(0x4du8)
                &&& raw.status == FileStatus::Renamed <==> byte == Some(0x52u8)
                &&& raw.old_oid == if old_oid == "0000000000000000000000000000000000000000"@ {
                    None
                } else {
                    Some(old_oid)
                }
                &&& raw.new_oid == if new_oid == "0000000000000000000000000000000000000000"@ {
                    None
                } else {
                    Some(new_oid)
                }
            }
        }),
{
    let d = new_oid + seq![' '] + status;
    let c = old_oid + seq![' '] + d;
    let b = modes.1 + seq![' '] + c;
    lemma_words_part_at_spaces(status, Seq::empty());
    lemma_words_part_at_spaces(new_oid, status);
    lemma_words_part_at_spaces(old_oid, d);
    lemma_words_part_at_spaces(modes.1, c);
    lemma_words_part_at_spaces(modes.0, b);
    let parts = words(modes.0 + seq![' '] + b);
    assert(parts == seq![modes.0] + (seq![modes.1] + (seq![old_oid] + (seq![new_oid] + seq![status]))));
    assert(parts.len() == 5);
    assert(parts[2] == old_oid && parts[3] == new_oid && parts[4] == status);
}

/// What was added has no base path and what was deleted no target path; a
/// rename goes from its first path to its second, and anything else has one
/// path on both sides.
pub proof fn lemma_raw_change_has_its_sides(raw: RawChangeView, path: Seq<char>, renamed_to: Seq<char>)
    ensures
        ({
            let change = bare_change(raw, path, Some(renamed_to));
            &&& change.status == raw.status
            &&& change.base_path == if raw.status == FileStatus::Added {
                None
            } else {
                Some(path)
            }
            &&& raw.status == FileStatus::Renamed ==> change.target_path == Some(renamed_to)
            &&& raw.status == FileStatus::Deleted ==> change.target_path is None
            &&& raw.status == FileStatus::Added || raw.status == FileStatus::Modified ==> change.target_path == Some(path)
            &&& change.old_blob_id == raw.old_oid
            &&& change.new_blob_id == raw.new_oid
        }),
{
}

/// A path is binary where both its counts are a dash, and only there.
pub proof fn lemma_dashes_mark_binary(recs: Seq<Seq<u8>>, at: int, added: Seq<char>, removed: Seq<char>, path: Seq<char>)
    requires
        0 <= at < recs.len(),
        text_in(recs[at], "numstat record"@) == Ok::<Seq<char>, ErrorView>(added + seq!['\t'] + removed + seq!['\t'] + path),
        lacks(added, '\t'),
        lacks(removed, '\t'),
        path.len() > 0,
        numstat(recs, at) is Ok,
    ensures
        numstat(recs, at + 1) is Ok,
        numstat(recs, at)->Ok_0 == if added == seq!['-'] && removed == seq!['-'] {
            numstat(recs, at + 1)->Ok_0.insert(path)
        } else {
            numstat(recs, at + 1)->Ok_0
        },
{
    let record = added + seq!['\t'] + removed + seq!['\t'] + path;
    let tail = seq!['\t'] + removed + seq!['\t'] + path;
    assert(record =~= added + tail);
    lemma_span_up_to(added, tail, '\t');
    assert(record.take(added.len() as int) =~= added);
    let rest = record.skip(added.len() as int + 1);
    let end = seq!['\t'] + path;
    assert(rest =~= removed + end);
    lemma_span_up_to(removed, end, '\t');
    assert(rest.take(removed.len() as int) =~= removed);
    assert(rest.skip(removed.len() as int + 1) =~= path);
    assert(numstat_fields(record) == Some((added, removed, path)));
    reveal_strlit("-");
    assert("-"@ =~= seq!['-']);
}

/// An object is given the bytes that follow its header, as many as the header
/// says, and the next header follows them.
pub proof fn lemma_object_has_its_bytes(
    output: Seq<u8>,
    offset: int,
    header: Seq<u8>,
    content: Seq<u8>,
    oids: Seq<Seq<char>>,
    blobs: Map<Seq<char>, BlobView>,
)
    requires
        oids.len() > 0,
        0 <= offset,
        forall|i: int| 0 <= i < header.len() ==> #[trigger] header[i] != 10,
        (header + seq![10u8] + content + seq![10u8]).is_prefix_of(output.skip(offset)),
        offset + header.len() + 1 + content.len() + 1 <= output.len() <= usize::MAX,
        text_in(header, "cat-file batch header"@) matches Ok(text) && batch_header(text, oids[0]) == Ok::<Option<nat>, ErrorView>(Some(content.len())),
    ensures
        batch(output, offset, oids, blobs) == batch(
            output,
            offset + header.len() + 1 + content.len() + 1,
            oids.drop_first(),
            blobs.insert(oids[0], BlobView::Available(content)),
        ),
{
    let rest = output.skip(offset);
    let whole = header + seq![10u8] + content + seq![10u8];
    assert forall|k: int| 0 <= k < whole.len() implies whole[k] == output[offset + k] by {
        assert(rest.subrange(0, whole.len() as int)[k] == rest[k]);
    }
    let n = header.len();
    assert forall|i: int| 0 <= i < n implies crate::git::not_newline()(#[trigger] rest[i]) by {
        assert(whole[i] == header[i]);
        assert(whole[i] == output[offset + i]);
    }
    assert(whole[n as int] == 10);
    lemma_span(rest, crate::git::not_newline(), n);
    let found = output.subrange(offset, offset + n);
    assert forall|k: int| 0 <= k < n implies found[k] == header[k] by {
        assert(whole[k] == header[k]);
    }
    assert(found =~= header);
    let start = offset + n + 1;
    let body = output.subrange(start, start + content.len());
    assert forall|k: int| 0 <= k < content.len() implies body[k] == content[k] by {
        assert(whole[n + 1 + k] == content[k]);
    }
    assert(body =~= content);
    assert(whole[n as int + 1 + content.len() as int] == 10);
}

proof fn lemma_totals(files: Seq<FileChangeView>, n: int)
    requires
        0 <= n <= files.len(),
    ensures
        all_added(files.take(n)) == sum(n, |i: int| files[i].added_lines as nat),
        all_removed(files.take(n)) == sum(n, |i: int| files[i].removed_lines as nat),
        binary_count(files.take(n)) == how_many(n, |i: int| files[i].status == FileStatus::Binary),
    decreases n,
{
    if n > 0 {
        lemma_totals(files, n - 1);
        assert(files.take(n).drop_last() =~= files.take(n - 1));
        assert(files.take(n).last() == files[n - 1]);
    }
}

/// The totals of an inventory are those of its files.
pub proof fn lemma_inventory_adds_up(files: Seq<FileChangeView>)
    requires
        files.len() <= u32::MAX,
        sum(files.len() as int, |i: int| files[i].added_lines as nat) <= u32::MAX,
        sum(files.len() as int, |i: int| files[i].removed_lines as nat) <= u32::MAX,
    ensures
        summary_of(files).changed_files == files.len(),
        summary_of(files).added_lines == sum(files.len() as int, |i: int| files[i].added_lines as nat),
        summary_of(files).removed_lines == sum(files.len() as int, |i: int| files[i].removed_lines as nat),
        summary_of(files).binary_files == how_many(files.len() as int, |i: int| files[i].status == FileStatus::Binary),
{
    let n = files.len() as int;
    lemma_totals(files, n);
    assert(files.take(n) =~= files);
    lemma_at_most(n, |i: int| files[i].status == FileStatus::Binary);
}

proof fn lemma_at_most(n: int, holds: spec_fn(int) -> bool)
    requires
        0 <= n,
    ensures
        how_many(n, holds) <= n,
    decreases n,
{
    if n > 0 {
        lemma_at_most(n - 1, holds);
    }
}

proof fn lemma_hunk_totals(hunks: Seq<DiffHunk>, n: int)
    requires
        0 <= n <= hunks.len(),
    ensures
        added_total(hunks.take(n)) == sum(n, |i: int| hunks[i].added_lines as nat),
        removed_total(hunks.take(n)) == sum(n, |i: int| hunks[i].removed_lines as nat),
    decreases n,
{
    if n > 0 {
        lemma_hunk_totals(hunks, n - 1);
        assert(hunks.take(n).drop_last() =~= hunks.take(n - 1));
        assert(hunks.take(n).last() == hunks[n - 1]);
    }
}

/// The first change that is looked up by a path gets the hunks of that path,
/// and its line counts are theirs. A binary path makes a binary change, without
/// contents to read.
pub proof fn lemma_change_gets_its_hunks(
    file: FileChangeView,
    rest: Seq<FileChangeView>,
    path: Seq<char>,
    by_path: Map<Seq<char>, Seq<DiffHunk>>,
    binary: Set<Seq<char>>,
)
    requires
        file.target_path == Some(path) || (file.target_path is None && file.base_path == Some(path)),
        by_path.contains_key(path),
        sum(by_path[path].len() as int, |i: int| by_path[path][i].added_lines as nat) <= u32::MAX,
        sum(by_path[path].len() as int, |i: int| by_path[path][i].removed_lines as nat) <= u32::MAX,
        hunks_attached(seq![file] + rest, by_path, binary) is Ok,
    ensures
        ({
            let all = hunks_attached(seq![file] + rest, by_path, binary)->Ok_0;
            let first = all[0];
            &&& all.len() > 0
            &&& hunks_attached(rest, by_path.remove(path), binary) == Ok::<Seq<FileChangeView>, ErrorView>(all.drop_first())
            &&& first.hunks == by_path[path]
            &&& first.added_lines == sum(by_path[path].len() as int, |i: int| by_path[path][i].added_lines as nat)
            &&& first.removed_lines == sum(by_path[path].len() as int, |i: int| by_path[path][i].removed_lines as nat)
            &&& first.base_path == file.base_path && first.target_path == file.target_path
            &&& first.status == if binary.contains(path) {
                FileStatus::Binary
            } else {
                file.status
            }
            &&& binary.contains(path) ==> first.base_blob == (if file.old_blob_id is Some {
                BlobView::Binary
            } else {
                BlobView::NotApplicable
            }) && first.target_blob == (if file.new_blob_id is Some {
                BlobView::Binary
            } else {
                BlobView::NotApplicable
            })
        }),
{
    let files = seq![file] + rest;
    assert(files[0] == file);
    assert(files.drop_first() =~= rest);
    let hunks = by_path[path];
    lemma_hunk_totals(hunks, hunks.len() as int);
    assert(hunks.take(hunks.len() as int) =~= hunks);
    let all = hunks_attached(files, by_path, binary)->Ok_0;
    let others = hunks_attached(rest, by_path.remove(path), binary)->Ok_0;
    assert(all =~= seq![all[0]] + others);
    assert(all.drop_first() =~= others);
}

/// Each side of a change that is not binary gets the content of its object.
pub proof fn lemma_change_gets_its_blobs(file: FileChangeView, blobs: Map<Seq<char>, BlobView>, old_oid: Seq<char>, new_oid: Seq<char>)
    requires
        file.status != FileStatus::Binary,
    ensures
        file.old_blob_id == Some(old_oid) && blobs.contains_key(old_oid) ==> with_blobs(file, blobs).base_blob == blobs[old_oid],
        file.new_blob_id == Some(new_oid) && blobs.contains_key(new_oid) ==> with_blobs(file, blobs).target_blob == blobs[new_oid],
        file.old_blob_id == Some(old_oid) && !blobs.contains_key(old_oid) ==> with_blobs(file, blobs).base_blob == BlobView::Missing,
        file.new_blob_id == Some(new_oid) && !blobs.contains_key(new_oid) ==> with_blobs(file, blobs).target_blob == BlobView::Missing,
        file.old_blob_id is None ==> with_blobs(file, blobs).base_blob == BlobView::NotApplicable,
        file.new_blob_id is None ==> with_blobs(file, blobs).target_blob == BlobView::NotApplicable,
{
}

} // verus!

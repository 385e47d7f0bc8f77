//! Texts in order, and text parted into lines and records.

use vstd::prelude::*;
use vstd::utf8::encode_utf8;

use crate::git::{batch, batch_header, not_newline, not_nul, numstat, numstat_fields, raw_changes, raw_header, bare_change, records, text_in};
use crate::laws::git::{is_word, lemma_number_is_read_back, lemma_words_part_at_spaces};
use crate::laws::words::{lacks, lemma_span_up_to};
use crate::text::{before, bytes_before, decimal, lemma_decimal, lemma_span, lines};
use crate::{BlobView, ErrorView, FileChangeView, FileStatus};

verus! {

/// Whether two sequences agree up to a place.
pub open spec fn agree_to(a: Seq<u8>, b: Seq<u8>, k: int) -> bool {
    0 <= k <= a.len() && k <= b.len() && forall|i: int| 0 <= i < k ==> #[trigger] a[i] == b[i]
}

/// A text comes before another where their bytes agree up to a place at which it
/// ends, or has the lower byte.
pub proof fn lemma_texts_come_by_bytes(a: Seq<char>, b: Seq<char>)
    ensures
        before(a, b) <==> exists|k: int| #[trigger]
            agree_to(encode_utf8(a), encode_utf8(b), k) && k < encode_utf8(b).len() && (k == encode_utf8(a).len() || encode_utf8(a)[k] < encode_utf8(
                b,
            )[k]),
{
    lemma_bytes(encode_utf8(a), encode_utf8(b));
}

proof fn lemma_bytes(a: Seq<u8>, b: Seq<u8>)
    ensures
        bytes_before(a, b) <==> exists|k: int| #[trigger] agree_to(a, b, k) && k < b.len() && (k == a.len() || a[k] < b[k]),
    decreases a.len(),
{
    if b.len() > 0 {
        if a.len() == 0 {
            assert(agree_to(a, b, 0));
        } else if a[0] != b[0] {
            if a[0] < b[0] {
                assert(agree_to(a, b, 0));
            }
            if exists|k: int| #[trigger] agree_to(a, b, k) && k < b.len() && (k == a.len() || a[k] < b[k]) {
                let k = choose|k: int| #[trigger] agree_to(a, b, k) && k < b.len() && (k == a.len() || a[k] < b[k]);
                if k > 0 {
                    assert(a[0] == b[0]);
                }
            }
        } else {
            let x = a.drop_first();
            let y = b.drop_first();
            lemma_bytes(x, y);
            if bytes_before(x, y) {
                let k = choose|k: int| #[trigger] agree_to(x, y, k) && k < y.len() && (k == x.len() || x[k] < y[k]);
                assert forall|i: int| 0 <= i < k + 1 implies #[trigger] a[i] == b[i] by {
                    if i > 0 {
                        assert(x[i - 1] == y[i - 1]);
                    }
                }
                assert(agree_to(a, b, k + 1));
            }
            if exists|k: int| #[trigger] agree_to(a, b, k) && k < b.len() && (k == a.len() || a[k] < b[k]) {
                let k = choose|k: int| #[trigger] agree_to(a, b, k) && k < b.len() && (k == a.len() || a[k] < b[k]);
                assert(k > 0);
                assert forall|i: int| 0 <= i < k - 1 implies #[trigger] x[i] == y[i] by {
                    assert(a[i + 1] == b[i + 1]);
                }
                assert(agree_to(x, y, k - 1));
            }
        }
    }
}

/// A text is parted into lines at its line feeds, each without a carriage
/// return at its end.
pub proof fn lemma_lines_are_parted(line: Seq<char>, rest: Seq<char>)
    requires
        lacks(line, '\n'),
        line.len() > 0 ==> line.last() != '\r',
    ensures
        lines(line + seq!['\n'] + rest) == seq![line] + lines(rest),
        lines(line + seq!['\r', '\n'] + rest) == seq![line] + lines(rest),
        line.len() > 0 ==> lines(line) == seq![line],
{
    let a = line + seq!['\n'] + rest;
    assert(a =~= line + (seq!['\n'] + rest));
    lemma_span_up_to(line, seq!['\n'] + rest, '\n');
    assert(a.take(line.len() as int) =~= line);
    assert(a.skip(line.len() as int + 1) =~= rest);
    let ended = line + seq!['\r'];
    assert(lacks(ended, '\n')) by {
        assert forall|i: int| 0 <= i < ended.len() implies #[trigger] ended[i] != '\n' by {
            if i < line.len() {
                assert(ended[i] == line[i]);
            }
        }
    }
    let b = line + seq!['\r', '\n'] + rest;
    assert(b =~= ended + (seq!['\n'] + rest));
    lemma_span_up_to(ended, seq!['\n'] + rest, '\n');
    assert(b.take(ended.len() as int) =~= ended);
    assert(ended.drop_last() =~= line);
    assert(b.skip(ended.len() as int + 1) =~= rest);
    lemma_span_up_to(line, Seq::empty(), '\n');
    assert(line + Seq::<char>::empty() =~= line);
}

/// Bytes are parted into records at their zero bytes, and empty records are
/// left out.
pub proof fn lemma_records_are_parted(record: Seq<u8>, rest: Seq<u8>)
    requires
        forall|i: int| 0 <= i < record.len() ==> #[trigger] record[i] != 0,
    ensures
        record.len() > 0 ==> records(record + seq![0u8] + rest) == seq![record] + records(rest),
        record.len() > 0 ==> records(record) == seq![record],
        records(seq![0u8] + rest) == records(rest),
{
    let s = record + seq![0u8] + rest;
    assert forall|i: int| 0 <= i < record.len() implies not_nul()(#[trigger] s[i]) by {
        assert(s[i] == record[i]);
    }
    assert(s[record.len() as int] == 0);
    lemma_span(s, not_nul(), record.len());
    assert(s.take(record.len() as int) =~= record);
    assert(s.skip(record.len() as int + 1) =~= rest);
    assert forall|i: int| 0 <= i < record.len() implies not_nul()(#[trigger] record[i]) by {}
    lemma_span(record, not_nul(), record.len());
    assert(record.take(record.len() as int) =~= record);
    let t = seq![0u8] + rest;
    assert(t[0] == 0);
    lemma_span(t, not_nul(), 0);
    assert(t.skip(1) =~= rest);
    assert(Seq::<Seq<u8>>::empty() + records(rest) =~= records(rest));
}

/// A change is read from its header and the path behind it, a rename from its
/// header and both paths behind it, and the next change follows.
pub proof fn lemma_changes_are_read(recs: Seq<Seq<u8>>, at: int, header: Seq<char>, path: Seq<char>, target: Seq<char>)
    requires
        0 <= at,
        at + 2 < recs.len(),
        header.len() > 0,
        text_in(recs[at], "raw diff header"@) == Ok::<Seq<char>, ErrorView>(header),
        raw_header(header) is Ok,
        text_in(recs[at + 1], "raw diff path"@) == Ok::<Seq<char>, ErrorView>(path),
        text_in(recs[at + 2], "raw diff rename target"@) == Ok::<Seq<char>, ErrorView>(target),
    ensures
        ({
            let raw = raw_header(header)->Ok_0;
            &&& raw.status != FileStatus::Renamed ==> match raw_changes(recs, at + 2) {
                Ok(rest) => raw_changes(recs, at) matches Ok(all) && all.len() == rest.len() + 1 && all.drop_first() == rest && all[0].status == raw.status
                    && (raw.status != FileStatus::Added ==> all[0].base_path == Some(path)) && (raw.status != FileStatus::Deleted ==> all[0].target_path
                    == Some(path)),
                Err(error) => raw_changes(recs, at) == Err::<Seq<FileChangeView>, ErrorView>(error),
            }
            &&& raw.status == FileStatus::Renamed ==> match raw_changes(recs, at + 3) {
                Ok(rest) => raw_changes(recs, at) matches Ok(all) && all.len() == rest.len() + 1 && all.drop_first() == rest && all[0].base_path == Some(
                    path,
                ) && all[0].target_path == Some(target),
                Err(error) => raw_changes(recs, at) == Err::<Seq<FileChangeView>, ErrorView>(error),
            }
        }),
{
    let raw = raw_header(header)->Ok_0;
    if raw.status == FileStatus::Renamed {
        if let Ok(rest) = raw_changes(recs, at + 3) {
            let all = seq![bare_change(raw, path, Some(target))] + rest;
            assert(all.drop_first() =~= rest);
        }
    } else {
        if let Ok(rest) = raw_changes(recs, at + 2) {
            let all = seq![bare_change(raw, path, None)] + rest;
            assert(all.drop_first() =~= rest);
        }
    }
}

/// The counts of a rename stand in front of both its paths, and are of the
/// second.
pub proof fn lemma_rename_is_counted_under_target(recs: Seq<Seq<u8>>, at: int, added: Seq<char>, removed: Seq<char>, base: Seq<char>, target: Seq<char>)
    requires
        0 <= at,
        at + 2 < recs.len(),
        text_in(recs[at], "numstat record"@) == Ok::<Seq<char>, ErrorView>(added + seq!['\t'] + removed + seq!['\t']),
        lacks(added, '\t'),
        lacks(removed, '\t'),
        text_in(recs[at + 1], "numstat rename base path"@) == Ok::<Seq<char>, ErrorView>(base),
        text_in(recs[at + 2], "numstat rename target path"@) == Ok::<Seq<char>, ErrorView>(target),
        numstat(recs, at) is Ok,
    ensures
        numstat(recs, at + 3) is Ok,
        numstat(recs, at)->Ok_0 == if added == seq!['-'] && removed == seq!['-'] {
            numstat(recs, at + 3)->Ok_0.insert(target)
        } else {
            numstat(recs, at + 3)->Ok_0
        },
{
    let record = added + seq!['\t'] + removed + seq!['\t'];
    let tail = seq!['\t'] + removed + seq!['\t'];
    assert(record =~= added + tail);
    lemma_span_up_to(added, tail, '\t');
    assert(record.take(added.len() as int) =~= added);
    let rest = record.skip(added.len() as int + 1);
    assert(rest =~= removed + seq!['\t']);
    lemma_span_up_to(removed, seq!['\t'], '\t');
    assert(rest.take(removed.len() as int) =~= removed);
    assert(rest.skip(removed.len() as int + 1) =~= Seq::empty());
    assert(numstat_fields(record) == Some((added, removed, Seq::<char>::empty())));
    reveal_strlit("-");
    assert("-"@ =~= seq!['-']);
}

proof fn lemma_decimal_is_word(n: nat)
    ensures
        is_word(decimal(n)),
{
    lemma_decimal(n);
}

/// A header names the object asked for, and says that it is missing, or how many
/// bytes its content has. One that names another object is refused.
pub proof fn lemma_object_header_is_read(oid: Seq<char>, other: Seq<char>, size: nat)
    requires
        is_word(oid),
        is_word(other),
        size <= usize::MAX,
    ensures
        batch_header(oid + seq![' '] + "missing"@, oid) == Ok::<Option<nat>, ErrorView>(None),
        batch_header(oid + seq![' '] + ("blob"@ + seq![' '] + decimal(size)), oid) == Ok::<Option<nat>, ErrorView>(Some(size)),
        batch_header(oid + seq![' '] + ("tree"@ + seq![' '] + decimal(size)), oid) is Err,
        other != oid ==> batch_header(other + seq![' '] + ("blob"@ + seq![' '] + decimal(size)), oid) is Err,
{
    reveal_strlit("missing");
    reveal_strlit("blob");
    reveal_strlit("tree");
    assert(is_word("missing"@));
    assert(is_word("blob"@));
    assert(is_word("tree"@));
    assert("missing"@.len() != "blob"@.len());
    assert("missing"@.len() != "tree"@.len());
    assert("tree"@[0] != "blob"@[0]);
    lemma_decimal_is_word(size);
    lemma_number_is_read_back(size, usize::MAX as nat);
    lemma_words_part_at_spaces("missing"@, Seq::empty());
    lemma_words_part_at_spaces(oid, "missing"@);
    lemma_words_part_at_spaces(decimal(size), Seq::empty());
    lemma_words_part_at_spaces("blob"@, decimal(size));
    lemma_words_part_at_spaces("tree"@, decimal(size));
    lemma_words_part_at_spaces(oid, "blob"@ + seq![' '] + decimal(size));
    lemma_words_part_at_spaces(oid, "tree"@ + seq![' '] + decimal(size));
    lemma_words_part_at_spaces(other, "blob"@ + seq![' '] + decimal(size));
    assert(seq![oid] + seq!["missing"@] =~= seq![oid, "missing"@]);
    assert(seq![oid] + (seq!["blob"@] + seq![decimal(size)]) =~= seq![oid, "blob"@, decimal(size)]);
    assert(seq![oid] + (seq!["tree"@] + seq![decimal(size)]) =~= seq![oid, "tree"@, decimal(size)]);
    assert(seq![other] + (seq!["blob"@] + seq![decimal(size)]) =~= seq![other, "blob"@, decimal(size)]);
}

/// An object that is missing has no bytes, and the next header follows.
pub proof fn lemma_missing_object(output: Seq<u8>, offset: int, header: Seq<u8>, oids: Seq<Seq<char>>, blobs: Map<Seq<char>, BlobView>)
    requires
        oids.len() > 0,
        0 <= offset,
        offset + header.len() < output.len(),
        forall|i: int| 0 <= i < header.len() ==> #[trigger] header[i] != 10 && output[offset + i] == header[i],
        output[offset + header.len()] == 10,
        text_in(header, "cat-file batch header"@) matches Ok(text) && batch_header(text, oids[0]) == Ok::<Option<nat>, ErrorView>(None),
    ensures
        batch(output, offset, oids, blobs) == batch(
            output,
            offset + header.len() + 1,
            oids.drop_first(),
            blobs.insert(oids[0], BlobView::Missing),
        ),
{
    let rest = output.skip(offset);
    let n = header.len();
    assert forall|i: int| 0 <= i < n implies not_newline()(#[trigger] rest[i]) by {
        assert(header[i] != 10);
        assert(rest[i] == output[offset + i]);
    }
    assert(rest[n as int] == output[offset + n]);
    lemma_span(rest, not_newline(), n);
    let found = output.subrange(offset, offset + n);
    assert forall|k: int| 0 <= k < n implies found[k] == header[k] by {
        assert(header[k] != 10);
    }
    assert(found =~= header);
}

} // verus!

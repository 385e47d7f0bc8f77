//! The files of one commit's tree.

use vstd::prelude::*;

use crate::git::{record_views, records, split_nul, text_in, utf8};
use crate::imports::{entry_views, EntryView, TreeEntry};
use crate::text::{chars_of, find_first, join2, other_than, quoted, quoted_form, span, text_of, texts, words, words_of};
use crate::{DiffScopeError, ErrorView};

verus! {

/// The entry that a record of a tree listing states: a mode, a type and an
/// object, and behind a tab the path.
pub open spec fn tree_entry(record: Seq<char>) -> Option<EntryView> {
    let at = span(record, other_than('\t')) as int;
    let head = words(record.take(at));
    if at < record.len() && head.len() == 3 {
        Some(EntryView { path: record.skip(at + 1), object_id: head[2] })
    } else {
        None
    }
}

/// What one record adds to the entries before it.
pub open spec fn with_record(before: Result<Seq<EntryView>, ErrorView>, record: Seq<u8>) -> Result<Seq<EntryView>, ErrorView> {
    match before {
        Err(error) => Err(error),
        Ok(entries) => match text_in(record, "tree entry"@) {
            Err(error) => Err(error),
            Ok(text) => match tree_entry(text) {
                Some(entry) => Ok(entries.push(entry)),
                None => Err(ErrorView::InvalidGitOutput("malformed tree entry "@ + quoted_form(text))),
            },
        },
    }
}

/// The entries of a tree listing, or the fault of its first record that states
/// none.
pub open spec fn listed_entries(all: Seq<Seq<u8>>) -> Result<Seq<EntryView>, ErrorView>
    decreases all.len(),
{
    if all.len() == 0 {
        Ok(Seq::empty())
    } else {
        with_record(listed_entries(all.drop_last()), all.last())
    }
}

proof fn lemma_fault_stays(all: Seq<Seq<u8>>, n: int)
    requires
        0 <= n <= all.len(),
        listed_entries(all.take(n)) is Err,
    ensures
        listed_entries(all) == listed_entries(all.take(n)),
    decreases all.len() - n,
{
    if n < all.len() {
        assert(all.take(n + 1).drop_last() =~= all.take(n));
        lemma_fault_stays(all, n + 1);
    } else {
        assert(all.take(n) =~= all);
    }
}

fn parse_entry(record: &str) -> (r: Option<TreeEntry>)
    ensures
        match r {
            Some(entry) => tree_entry(record@) == Some(entry@),
            None => tree_entry(record@) is None,
        },
{
    let chars = chars_of(record);
    let at = find_first(&chars, '\t');
    if at >= chars.len() {
        return None;
    }
    let head = text_of(&chars, 0, at);
    assert(head@ =~= record@.take(at as int));
    let parts = words_of(head.as_str());
    assert(texts(parts@).len() == parts@.len());
    if parts.len() != 3 {
        return None;
    }
    let path = text_of(&chars, at + 1, chars.len());
    assert(path@ =~= record@.skip(at + 1));
    assert(texts(parts@)[2] == parts@[2]@);
    Some(TreeEntry { path, object_id: parts[2].clone() })
}

/// Read the entries of a tree out of a NUL-terminated listing.
pub fn parse_tree(output: &[u8]) -> (r: Result<Vec<TreeEntry>, DiffScopeError>)
    ensures
        match r {
            Ok(entries) => listed_entries(records(output@)) == Ok::<Seq<EntryView>, ErrorView>(entry_views(entries@)),
            Err(error) => listed_entries(records(output@)) == Err::<Seq<EntryView>, ErrorView>(error@),
        },
{
    let pieces = split_nul(output);
    let ghost all = records(output@);
    let mut out: Vec<TreeEntry> = Vec::new();
    let mut i: usize = 0;
    assert(all.take(0) =~= Seq::<Seq<u8>>::empty());
    assert(entry_views(out@) =~= Seq::<EntryView>::empty());
    while i < pieces.len()
        invariant
            i <= pieces.len(),
            all == record_views(pieces@),
            all == records(output@),
            listed_entries(all.take(i as int)) == Ok::<Seq<EntryView>, ErrorView>(entry_views(out@)),
        decreases pieces.len() - i,
    {
        let ghost so_far = entry_views(out@);
        proof {
            assert(all.take(i + 1).drop_last() =~= all.take(i as int));
            assert(all.take(i + 1).last() == pieces@[i as int]@);
        }
        let text = match utf8(pieces[i].as_slice(), "tree entry") {
            Ok(text) => text,
            Err(error) => {
                proof {
                    lemma_fault_stays(all, i + 1);
                }
                return Err(error);
            },
        };
        match parse_entry(text.as_str()) {
            Some(entry) => {
                let ghost one = entry@;
                out.push(entry);
                assert(entry_views(out@) =~= so_far.push(one));
            },
            None => {
                proof {
                    lemma_fault_stays(all, i + 1);
                }
                return Err(DiffScopeError::InvalidGitOutput(join2("malformed tree entry ", quoted(text.as_str()).as_str())));
            },
        }
        i = i + 1;
    }
    assert(all.take(i as int) =~= all);
    Ok(out)
}

} // verus!

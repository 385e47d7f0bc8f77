//! Windows over ranked lists.

use vstd::prelude::*;

verus! {

/// Largest page any query will return, whatever limit is requested.
pub const MAX_LIMIT: usize = 200;

/// Page size used when a caller does not ask for one.
pub const DEFAULT_LIMIT: usize = 50;

/// The page size that a request is applied with.
pub open spec fn applied_limit(limit: Option<usize>) -> int {
    match limit {
        None => DEFAULT_LIMIT as int,
        Some(limit) => if limit < 1 {
            1
        } else if limit > MAX_LIMIT {
            MAX_LIMIT as int
        } else {
            limit as int
        },
    }
}

/// The page size a request is applied with, after defaults and bounds.
///
/// Canonical, so a caller can be told exactly what was applied and a cursor can
/// be bound to it: two requests that differ only in an out-of-range limit mean
/// the same page.
#[must_use]
pub fn canonical_limit(limit: Option<usize>) -> (r: usize)
    ensures
        r == applied_limit(limit),
        1 <= r <= MAX_LIMIT,
{
    match limit {
        None => DEFAULT_LIMIT,
        Some(limit) => if limit < 1 {
            1
        } else if limit > MAX_LIMIT {
            MAX_LIMIT
        } else {
            limit
        },
    }
}

/// A limit that was applied is applied as it stands.
pub proof fn lemma_limit_settles(limit: Option<usize>)
    ensures
        applied_limit(Some(applied_limit(limit) as usize)) == applied_limit(limit),
{
}

/// Which part of a ranked list to return.
///
/// The offset is not a caller-facing parameter: the transport sets it only from
/// a cursor it issued itself, so a page is always a continuation of one answer
/// rather than an arbitrary slice of another.
#[derive(Debug, Clone, Copy, PartialEq, Eq)]
pub struct Page {
    pub limit: Option<usize>,
    pub offset: usize,
}

impl Default for Page {
    fn default() -> (r: Self)
        ensures
            r == (Page { limit: None, offset: 0 }),
    {
        Page { limit: None, offset: 0 }
    }
}

/// How much of a ranked list one answer carried.
///
/// The transport turns `next_offset` into the opaque cursor a caller sends
/// back; nothing outside the query layer sees a bare offset.
#[derive(Debug, Clone, Copy, PartialEq, Eq)]
pub struct PageWindow {
    pub returned: usize,
    pub total: usize,
    pub has_more: bool,
    /// Offset of the next row, when one exists.
    pub next_offset: Option<usize>,
}

/// The part of a list from an offset on that a limit admits.
pub open spec fn window<T>(rows: Seq<T>, offset: int, limit: int) -> Seq<T> {
    if offset >= rows.len() {
        Seq::empty()
    } else if offset + limit < rows.len() {
        rows.subrange(offset, offset + limit)
    } else {
        rows.subrange(offset, rows.len() as int)
    }
}

/// What is said of a page beside its rows.
pub open spec fn window_facts(total: nat, page: Page) -> PageWindow {
    let limit = applied_limit(page.limit);
    let left = if page.offset >= total {
        0
    } else {
        total - page.offset
    };
    let returned = if limit < left {
        limit
    } else {
        left
    };
    PageWindow {
        returned: returned as usize,
        total: total as usize,
        has_more: page.offset + returned < total,
        next_offset: if page.offset + returned < total {
            Some((page.offset + returned) as usize)
        } else {
            None
        },
    }
}

/// Take one page out of a ranked list.
pub fn paginate<T>(rows: Vec<T>, page: &Page) -> (r: (Vec<T>, PageWindow))
    ensures
        r.0@ == window(rows@, page.offset as int, applied_limit(page.limit)),
        r.1 == window_facts(rows@.len(), *page),
{
    let mut rows = rows;
    let total: usize = rows.len();
    let limit = canonical_limit(page.limit);
    let ghost given = rows@;
    let start: usize = if page.offset < total {
        page.offset
    } else {
        total
    };
    let mut selected = rows.split_off(start);
    selected.truncate(limit);
    assert(selected@ =~= window(given, page.offset as int, applied_limit(page.limit)));
    let returned: usize = selected.len();
    let next_offset: Option<usize> = if total - start > returned {
        Some(start + returned)
    } else {
        None
    };
    (selected, PageWindow { returned, total, has_more: next_offset.is_some(), next_offset })
}

/// Every page from an offset on, one behind the other.
pub open spec fn all_pages<T>(rows: Seq<T>, offset: int, limit: int) -> Seq<T>
    decreases
            if offset < rows.len() {
                rows.len() - offset
            } else {
                0
            },
{
    if offset < 0 || limit < 1 || offset >= rows.len() {
        Seq::empty()
    } else {
        window(rows, offset, limit) + all_pages(rows, offset + limit, limit)
    }
}

/// Following the offset that each page gives yields every row once, in order.
pub proof fn lemma_pages_cover<T>(rows: Seq<T>, offset: int, limit: int)
    requires
        0 <= offset <= rows.len(),
        limit >= 1,
    ensures
        all_pages(rows, offset, limit) == rows.skip(offset),
    decreases rows.len() - offset,
{
    if offset < rows.len() {
        if offset + limit < rows.len() {
            lemma_pages_cover(rows, offset + limit, limit);
        } else {
            assert(all_pages(rows, offset + limit, limit) =~= Seq::<T>::empty());
        }
        assert(all_pages(rows, offset, limit) =~= rows.skip(offset));
    } else {
        assert(rows.skip(offset) =~= Seq::<T>::empty());
    }
}

/// A page says where the next begins: right behind its own rows, and only
/// where rows are left.
pub proof fn lemma_next_page(total: nat, page: Page)
    requires
        total <= usize::MAX,
        page.offset < total,
    ensures
        window_facts(total, page).next_offset is Some <==> page.offset + applied_limit(page.limit) < total,
        window_facts(total, page).next_offset is Some ==> window_facts(total, page).next_offset->0 == page.offset + applied_limit(page.limit),
{
}

} // verus!

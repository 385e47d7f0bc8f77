//! A long-lived harness that reuses analyses between requests.

use std::sync::Arc;

use vstd::prelude::*;

use crate::order::picked;
use crate::query::graph::countable;
use crate::result::{file_views, AnalysisResult, FileView, ResultView};
use crate::text::{join3, same_text};
use crate::{error_text, DiffScopeError, ErrorView};

pub mod cursor;
pub mod impact;
pub mod jsonl;
pub mod tools;

verus! {

/// Transport-neutral request accepted by harness adapters.
#[derive(Debug, Clone, PartialEq, Eq)]
pub struct HarnessRequest {
    pub id: String,
    pub repository: String,
    pub base_revision: String,
    pub target_revision: String,
}

/// Transport-neutral response returned by every harness adapter.
#[derive(Debug, Clone, PartialEq, Eq)]
pub struct HarnessResponse {
    pub id: String,
    pub outcome: HarnessOutcome,
}

/// What came of a request.
#[derive(Debug, Clone, PartialEq, Eq)]
pub enum HarnessOutcome {
    Success(Arc<AnalysisResult>),
    Error(HarnessError),
}

/// Why a request failed.
#[derive(Debug, Clone, PartialEq, Eq)]
pub struct HarnessError {
    pub code: HarnessErrorCode,
    pub message: String,
}

/// What kind of failure it was.
#[derive(Debug, Clone, Copy, PartialEq, Eq, Structural)]
pub enum HarnessErrorCode {
    AnalysisFailed,
}

/// Analyses retained for reuse across requests.
///
/// An agent asks several questions about one comparison, and each is a
/// projection of the same analysis.
pub const MAX_CACHED_ANALYSES: usize = 4;

/// Upper bound on the function records held across all cached analyses.
///
/// Entry count alone does not bound memory. Function records are the bulk of a
/// result, so they stand in for its size.
pub const MAX_CACHED_FUNCTIONS: usize = 200_000;

/// What a cached analysis is found by.
///
/// The commits the two revisions resolve to, never the revision names: a branch
/// name points at different commits over time, so caching against the name
/// would serve a stale analysis after the branch moved.
pub struct CacheKey {
    pub repository_root: String,
    pub base_commit: String,
    pub target_commit: String,
}

/// A cache key by its texts.
#[verifier::ext_equal]
pub struct KeyFacts {
    pub repository_root: Seq<char>,
    pub base_commit: Seq<char>,
    pub target_commit: Seq<char>,
}

impl View for CacheKey {
    type V = KeyFacts;

    open spec fn view(&self) -> KeyFacts {
        KeyFacts { repository_root: self.repository_root@, base_commit: self.base_commit@, target_commit: self.target_commit@ }
    }
}

impl CacheKey {
    fn is(&self, other: &CacheKey) -> (r: bool)
        ensures
            r == (self@ == other@),
    {
        let r = same_text(self.repository_root.as_str(), other.repository_root.as_str()) && same_text(
            self.base_commit.as_str(),
            other.base_commit.as_str(),
        ) && same_text(self.target_commit.as_str(), other.target_commit.as_str());
        assert(r ==> self@ =~= other@);
        r
    }
}

struct CacheEntry {
    key: CacheKey,
    result: Arc<AnalysisResult>,
    functions: usize,
}

/// A cached analysis by what it holds.
#[verifier::ext_equal]
pub struct EntryFacts {
    pub key: KeyFacts,
    pub result: ResultView,
    pub functions: nat,
}

impl View for CacheEntry {
    type V = EntryFacts;

    closed spec fn view(&self) -> EntryFacts {
        EntryFacts { key: self.key@, result: self.result@, functions: self.functions as nat }
    }
}

/// A long-lived harness process that reuses analyses between requests.
pub struct HarnessSession {
    cached: Vec<CacheEntry>,
}

closed spec fn entry_facts(cached: Seq<CacheEntry>) -> Seq<EntryFacts> {
    Seq::new(cached.len(), |i: int| cached[i]@)
}

impl View for HarnessSession {
    type V = Seq<EntryFacts>;

    /// The cached analyses, the least recently used first.
    closed spec fn view(&self) -> Seq<EntryFacts> {
        entry_facts(self.cached@)
    }
}

/// The function records of several files.
pub open spec fn function_records(files: Seq<FileView>) -> nat
    decreases files.len(),
{
    if files.len() == 0 {
        0
    } else {
        function_records(files.drop_last()) + files.last().functions.len()
    }
}

fn count_records(result: &AnalysisResult) -> (r: usize)
    ensures
        r == countable(function_records(result@.files)),
{
    let ghost files = result@.files;
    let mut total: usize = 0;
    let mut i: usize = 0;
    assert(files.take(0) =~= Seq::<FileView>::empty());
    while i < result.files.len()
        invariant
            i <= result.files.len(),
            files == file_views(result.files@),
            total == countable(function_records(files.take(i as int))),
        decreases result.files.len() - i,
    {
        assert(files.take(i + 1).drop_last() =~= files.take(i as int));
        assert(files.take(i + 1).last() == result.files@[i as int]@);
        let own: usize = result.files[i].functions.len();
        total = if own > usize::MAX - total {
            usize::MAX
        } else {
            total + own
        };
        i = i + 1;
    }
    assert(files.take(i as int) =~= files);
    total
}

/// The function records of all entries.
pub open spec fn cached_records(entries: Seq<EntryFacts>) -> nat
    decreases entries.len(),
{
    if entries.len() == 0 {
        0
    } else {
        cached_records(entries.drop_last()) + entries.last().functions
    }
}

/// Whether a cache holds more than it may: too many entries, or, where there is
/// more than one, too many function records.
pub open spec fn overfull(entries: Seq<EntryFacts>) -> bool {
    entries.len() > MAX_CACHED_ANALYSES || (entries.len() > 1 && cached_records(entries) > MAX_CACHED_FUNCTIONS)
}

/// The entries that stay: the least recently used ones leave while there are
/// too many.
pub open spec fn evicted(entries: Seq<EntryFacts>) -> Seq<EntryFacts>
    decreases entries.len(),
{
    if entries.len() > 0 && overfull(entries) {
        evicted(entries.drop_first())
    } else {
        entries
    }
}

/// The condition of being kept under another key.
pub open spec fn other_key(key: KeyFacts) -> spec_fn(EntryFacts) -> bool {
    |entry: EntryFacts| entry.key != key
}

/// The place of the first entry of a key, from a place on.
pub open spec fn cached_from(entries: Seq<EntryFacts>, key: KeyFacts, from: int) -> Option<int>
    decreases entries.len() - from,
{
    if from < 0 || from >= entries.len() {
        None
    } else if entries[from].key == key {
        Some(from)
    } else {
        cached_from(entries, key, from + 1)
    }
}

/// The entries with one of them moved behind all others.
pub open spec fn used(entries: Seq<EntryFacts>, at: int) -> Seq<EntryFacts> {
    entries.remove(at).push(entries[at])
}

/// The entries once an analysis was stored: it stands behind all others, alone
/// under its key, and what no longer fits has left.
pub open spec fn stored(entries: Seq<EntryFacts>, key: KeyFacts, result: ResultView) -> Seq<EntryFacts> {
    evicted(
        picked(entries, other_key(key)).push(EntryFacts { key, result, functions: countable(function_records(result.files)) }),
    )
}

/// `Arc::clone` hands out another handle on the same value.
#[verifier::external_body]
fn share<T>(value: &Arc<T>) -> (r: Arc<T>)
    ensures
        *r == **value,
{
    Arc::clone(value)
}

impl Default for HarnessSession {
    fn default() -> (r: Self)
        ensures
            r@ == Seq::<EntryFacts>::empty(),
    {
        HarnessSession::new()
    }
}

impl HarnessSession {
    /// A session that has cached nothing.
    #[must_use]
    pub fn new() -> (r: Self)
        ensures
            r@ == Seq::<EntryFacts>::empty(),
    {
        let r = HarnessSession { cached: Vec::new() };
        assert(r@ =~= Seq::<EntryFacts>::empty());
        r
    }

    /// The cached analysis of the same commits, which is the most recently used
    /// one from then on.
    pub fn take_cached(&mut self, key: &CacheKey) -> (r: Option<Arc<AnalysisResult>>)
        ensures
            match cached_from(old(self)@, key@, 0) {
                Some(at) => r is Some && r->0@ == old(self)@[at].result && final(self)@ == used(old(self)@, at),
                None => r is None && final(self)@ == old(self)@,
            },
    {
        let ghost entries = self@;
        let mut i: usize = 0;
        while i < self.cached.len()
            invariant
                i <= self.cached.len(),
                entries == self@,
                entries == old(self)@,
                cached_from(entries, key@, i as int) == cached_from(entries, key@, 0),
            decreases self.cached.len() - i,
        {
            assert(entries[i as int] == self.cached@[i as int]@);
            if self.cached[i].key.is(key) {
                let entry = self.cached.remove(i);
                let result = share(&entry.result);
                self.cached.push(entry);
                assert(self@ =~= used(entries, i as int));
                return Some(result);
            }
            i = i + 1;
        }
        None
    }

    /// Keep an analysis for later requests.
    pub fn store(&mut self, key: CacheKey, result: &Arc<AnalysisResult>)
        ensures
            final(self)@ == stored(old(self)@, key@, result@),
    {
        let ghost entries = self@;
        let ghost keep = other_key(key@);
        let functions = count_records(result);
        let n: usize = self.cached.len();
        let ghost mut seen: int = 0;
        let mut i: usize = 0;
        assert(picked(entries.take(0), keep) + entries.skip(0) =~= entries);
        while i < self.cached.len()
            invariant
                i <= self.cached.len(),
                keep == other_key(key@),
                0 <= seen <= entries.len(),
                i == picked(entries.take(seen), keep).len(),
                self@ == picked(entries.take(seen), keep) + entries.skip(seen),
            decreases self.cached.len() - i,
        {
            let ghost before = self@;
            proof {
                assert(self@[i as int] == self.cached@[i as int]@);
                assert(self@[i as int] == entries[seen]);
                assert(entries.take(seen + 1).drop_last() =~= entries.take(seen));
            }
            if self.cached[i].key.is(&key) {
                let _ = self.cached.remove(i);
                assert(self@ =~= before.remove(i as int));
                assert(before.remove(i as int) =~= picked(entries.take(seen + 1), keep) + entries.skip(seen + 1));
            } else {
                assert(before =~= picked(entries.take(seen + 1), keep) + entries.skip(seen + 1));
                i = i + 1;
            }
            proof {
                seen = seen + 1;
            }
        }
        proof {
            assert(seen == entries.len());
            assert(entries.take(seen) =~= entries);
            assert(self@ =~= picked(entries, keep));
        }
        let ghost kept = self@;
        let entry = CacheEntry { key, result: share(result), functions };
        let ghost added = entry@;
        self.cached.push(entry);
        assert(self@ =~= kept.push(added));
        self.evict();
    }

    /// Let the least recently used entries leave while there are too many.
    fn evict(&mut self)
        ensures
            final(self)@ == evicted(old(self)@),
    {
        let ghost all = self@;
        while self.cached.len() > 0 && self.is_overfull()
            invariant
                evicted(self@) == evicted(all),
            decreases self.cached.len(),
        {
            let ghost before = self@;
            let _ = self.cached.remove(0);
            assert(self@ =~= before.drop_first());
        }
    }

    fn is_overfull(&self) -> (r: bool)
        ensures
            r == overfull(self@),
    {
        let ghost entries = self@;
        if self.cached.len() > MAX_CACHED_ANALYSES {
            return true;
        }
        if self.cached.len() <= 1 {
            return false;
        }
        let mut total: usize = 0;
        let mut i: usize = 0;
        assert(entries.take(0) =~= Seq::<EntryFacts>::empty());
        while i < self.cached.len()
            invariant
                i <= self.cached.len(),
                entries == self@,
                1 < entries.len(),
                total == cached_records(entries.take(i as int)),
                total <= MAX_CACHED_FUNCTIONS,
            decreases self.cached.len() - i,
        {
            proof {
                assert(entries.take(i + 1).drop_last() =~= entries.take(i as int));
                assert(entries.take(i + 1).last() == self.cached@[i as int]@);
            }
            if self.cached[i].functions > MAX_CACHED_FUNCTIONS - total {
                proof {
                    lemma_records_grow(entries, i + 1);
                }
                return true;
            }
            total = total + self.cached[i].functions;
            i = i + 1;
        }
        assert(entries.take(i as int) =~= entries);
        false
    }
}

proof fn lemma_records_grow(entries: Seq<EntryFacts>, n: int)
    requires
        0 <= n <= entries.len(),
    ensures
        cached_records(entries.take(n)) <= cached_records(entries),
    decreases entries.len() - n,
{
    if n < entries.len() {
        assert(entries.take(n + 1).drop_last() =~= entries.take(n));
        lemma_records_grow(entries, n + 1);
    } else {
        assert(entries.take(n) =~= entries);
    }
}

proof fn lemma_evicted(entries: Seq<EntryFacts>)
    requires
        entries.len() > 0,
    ensures
        evicted(entries).len() > 0,
        evicted(entries).len() <= entries.len(),
        evicted(entries) == entries.skip(entries.len() - evicted(entries).len()),
        !overfull(evicted(entries)),
    decreases entries.len(),
{
    if overfull(entries) {
        lemma_evicted(entries.drop_first());
        let rest = evicted(entries.drop_first());
        assert(entries.drop_first().skip(entries.len() - 1 - rest.len()) =~= entries.skip(entries.len() - rest.len()));
    } else {
        assert(entries.skip(0) =~= entries);
    }
}

/// A cache never holds more than it may once an analysis was stored.
pub proof fn lemma_cache_stays_bounded(entries: Seq<EntryFacts>, key: KeyFacts, result: ResultView)
    ensures
        !overfull(stored(entries, key, result)),
        stored(entries, key, result).len() <= MAX_CACHED_ANALYSES,
{
    let entry = EntryFacts { key, result, functions: countable(function_records(result.files)) };
    lemma_evicted(picked(entries, other_key(key)).push(entry));
}

/// What was stored last is found again: the cache answers with the analysis
/// that was stored under the same commits.
pub proof fn lemma_stored_is_found(entries: Seq<EntryFacts>, key: KeyFacts, result: ResultView)
    ensures
        match cached_from(stored(entries, key, result), key, 0) {
            Some(at) => 0 <= at < stored(entries, key, result).len() && stored(entries, key, result)[at].result == result,
            None => false,
        },
{
    let kept = picked(entries, other_key(key));
    let entry = EntryFacts { key, result, functions: countable(function_records(result.files)) };
    let whole = kept.push(entry);
    let out = stored(entries, key, result);
    lemma_evicted(whole);
    crate::order::lemma_picked(entries, other_key(key));
    let last = out.len() - 1;
    assert(out[last] == whole[whole.len() - 1]);
    assert forall|i: int| 0 <= i < last implies (#[trigger] out[i]).key != key by {
        let j = whole.len() - out.len() + i;
        assert(out[i] == whole[j]);
        assert(whole[j] == kept[j]);
        assert(kept.contains(kept[j]));
        assert(other_key(key)(kept[j]));
    }
    lemma_found_at(out, key, 0, last);
}

proof fn lemma_found_at(entries: Seq<EntryFacts>, key: KeyFacts, from: int, at: int)
    requires
        0 <= from <= at < entries.len(),
        entries[at].key == key,
        forall|i: int| from <= i < at ==> (#[trigger] entries[i]).key != key,
    ensures
        cached_from(entries, key, from) == Some(at),
    decreases at - from,
{
    if from < at {
        lemma_found_at(entries, key, from + 1, at);
    }
}

/// What a finished analysis answers a request with: the analysis, or the
/// sentence that it failed with.
pub fn respond(request: HarnessRequest, result: Result<Arc<AnalysisResult>, DiffScopeError>) -> (r: HarnessResponse)
    ensures
        r.id == request.id,
        match result {
            Ok(result) => r.outcome == HarnessOutcome::Success(result),
            Err(error) => match r.outcome {
                HarnessOutcome::Error(fault) => fault.code == HarnessErrorCode::AnalysisFailed && fault.message@ == error_text(error@),
                HarnessOutcome::Success(_) => false,
            },
        },
{
    let outcome = match result {
        Ok(result) => HarnessOutcome::Success(result),
        Err(error) => HarnessOutcome::Error(HarnessError { code: HarnessErrorCode::AnalysisFailed, message: error.to_text() }),
    };
    HarnessResponse { id: request.id, outcome }
}

/// Whether an outcome is an analysis.
pub open spec fn succeeded(outcome: HarnessOutcome, result: ResultView) -> bool {
    match outcome {
        HarnessOutcome::Success(found) => found@ == result,
        HarnessOutcome::Error(_) => false,
    }
}

/// Whether an outcome is the failure of an analysis.
pub open spec fn failed(outcome: HarnessOutcome, error: ErrorView) -> bool {
    match outcome {
        HarnessOutcome::Error(fault) => fault.code == HarnessErrorCode::AnalysisFailed && fault.message@ == error_text(error),
        HarnessOutcome::Success(_) => false,
    }
}

impl HarnessSession {
    /// Analyze a comparison, reusing a cached analysis of the same commits.
    ///
    /// `key` is what the repository and the two revisions resolve to, and `load`
    /// makes the analysis; it is called only where nothing is cached. Fails
    /// when the repository or either revision cannot be resolved, or when the
    /// analysis itself fails.
    pub fn analysis<F>(&mut self, key: Result<CacheKey, DiffScopeError>, load: F) -> (r: Result<Arc<AnalysisResult>, DiffScopeError>) where
        F: FnOnce() -> Result<AnalysisResult, DiffScopeError>,

        requires
            load.requires(()),
        ensures
            match key {
                Err(error) => r == Err::<Arc<AnalysisResult>, DiffScopeError>(error) && final(self)@ == old(self)@,
                Ok(key) => match cached_from(old(self)@, key@, 0) {
                    Some(at) => r is Ok && r->Ok_0@ == old(self)@[at].result && final(self)@ == used(old(self)@, at),
                    None => exists|outcome: Result<AnalysisResult, DiffScopeError>|
                        #![trigger load.ensures((), outcome)]
                        load.ensures((), outcome) && match outcome {
                            Ok(result) => r is Ok && r->Ok_0@ == result@ && final(self)@ == stored(old(self)@, key@, result@),
                            Err(error) => r == Err::<Arc<AnalysisResult>, DiffScopeError>(error) && final(self)@ == old(self)@,
                        },
                },
            },
    {
        let key = match key {
            Ok(key) => key,
            Err(error) => {
                return Err(error);
            },
        };
        if let Some(cached) = self.take_cached(&key) {
            return Ok(cached);
        }
        let outcome = load();
        assert(load.ensures((), outcome));
        match outcome {
            Ok(result) => {
                let result = Arc::new(result);
                self.store(key, &result);
                Ok(result)
            },
            Err(error) => Err(error),
        }
    }

    /// Execute one transport-neutral harness request.
    pub fn execute<F>(&mut self, request: HarnessRequest, key: Result<CacheKey, DiffScopeError>, load: F) -> (r: HarnessResponse) where
        F: FnOnce() -> Result<AnalysisResult, DiffScopeError>,

        requires
            load.requires(()),
        ensures
            r.id == request.id,
            match key {
                Err(error) => failed(r.outcome, error@) && final(self)@ == old(self)@,
                Ok(key) => match cached_from(old(self)@, key@, 0) {
                    Some(at) => succeeded(r.outcome, old(self)@[at].result) && final(self)@ == used(old(self)@, at),
                    None => exists|outcome: Result<AnalysisResult, DiffScopeError>|
                        #![trigger load.ensures((), outcome)]
                        load.ensures((), outcome) && match outcome {
                            Ok(result) => succeeded(r.outcome, result@) && final(self)@ == stored(old(self)@, key@, result@),
                            Err(error) => failed(r.outcome, error@) && final(self)@ == old(self)@,
                        },
                },
            },
    {
        let result = self.analysis(key, load);
        respond(request, result)
    }
}

/// Execute one transport-neutral harness request without reusing analyses.
pub fn execute<F>(request: HarnessRequest, key: Result<CacheKey, DiffScopeError>, load: F) -> (r: HarnessResponse) where
    F: FnOnce() -> Result<AnalysisResult, DiffScopeError>,

    requires
        load.requires(()),
    ensures
        r.id == request.id,
        match key {
            Err(error) => failed(r.outcome, error@),
            Ok(_) => exists|outcome: Result<AnalysisResult, DiffScopeError>|
                #![trigger load.ensures((), outcome)]
                load.ensures((), outcome) && match outcome {
                    Ok(result) => succeeded(r.outcome, result@),
                    Err(error) => failed(r.outcome, error@),
                },
        },
{
    let mut session = HarnessSession::new();
    session.execute(request, key, load)
}

/// The identity of an analysis: the commits it compares.
pub open spec fn compared(base: Seq<char>, target: Seq<char>) -> Seq<char> {
    base + ".."@ + target
}

/// The identity of an analysis: the commits it compares.
#[must_use]
pub fn analysis_id(base: &str, target: &str) -> (r: String)
    ensures
        r@ == compared(base@, target@),
{
    join3(base, "..", target)
}

} // verus!

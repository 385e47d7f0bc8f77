//! What a list was asked with, and the token that continues it.

use vstd::prelude::*;

use crate::collections::copy_option;
use crate::query::page::{applied_limit, canonical_limit, PageWindow};
use crate::result::SCHEMA_VERSION;
use crate::text::{decimal, join3, number_text, same_text, text_option};

verus! {

/// Why a question cannot be answered.
#[derive(Debug, PartialEq, Eq)]
pub struct ProjectionError {
    pub code: &'static str,
    pub message: String,
}

/// A failure by what its texts hold.
#[verifier::ext_equal]
pub struct FaultFacts {
    pub code: Seq<char>,
    pub message: Seq<char>,
}

impl View for ProjectionError {
    type V = FaultFacts;

    open spec fn view(&self) -> FaultFacts {
        FaultFacts { code: self.code@, message: self.message@ }
    }
}

/// The failure of a parameter.
pub open spec fn invalid(message: Seq<char>) -> FaultFacts {
    FaultFacts { code: "invalid_params"@, message }
}

pub(crate) fn invalid_params(message: String) -> (r: ProjectionError)
    ensures
        r@ == invalid(message@),
{
    ProjectionError { code: "invalid_params", message }
}

/// The hex digit of a number below sixteen.
pub open spec fn hex_char(n: int) -> char {
    if n == 0 {
        '0'
    } else if n == 1 {
        '1'
    } else if n == 2 {
        '2'
    } else if n == 3 {
        '3'
    } else if n == 4 {
        '4'
    } else if n == 5 {
        '5'
    } else if n == 6 {
        '6'
    } else if n == 7 {
        '7'
    } else if n == 8 {
        '8'
    } else if n == 9 {
        '9'
    } else if n == 10 {
        'a'
    } else if n == 11 {
        'b'
    } else if n == 12 {
        'c'
    } else if n == 13 {
        'd'
    } else if n == 14 {
        'e'
    } else {
        'f'
    }
}

/// The number of a hex digit, lower case only.
pub open spec fn hex_value(c: char) -> Option<int> {
    if '0' <= c && c <= '9' {
        Some(c as int - '0' as int)
    } else if 'a' <= c && c <= 'f' {
        Some(c as int - 'a' as int + 10)
    } else {
        None
    }
}

/// Bytes as hex digits, two for each.
pub open spec fn hex_text(bytes: Seq<u8>) -> Seq<char>
    decreases bytes.len(),
{
    if bytes.len() == 0 {
        Seq::empty()
    } else {
        hex_text(bytes.drop_last()).push(hex_char(bytes.last() as int / 16)).push(hex_char(bytes.last() as int % 16))
    }
}

/// The bytes that hex digits stand for, two for each; nothing where a digit is
/// missing or is none.
pub open spec fn hex_bytes(text: Seq<char>) -> Option<Seq<u8>>
    decreases text.len(),
{
    if text.len() == 0 {
        Some(Seq::empty())
    } else if text.len() == 1 {
        None
    } else {
        let n = text.len() as int;
        match (hex_bytes(text.take(n - 2)), hex_value(text[n - 2]), hex_value(text[n - 1])) {
            (Some(before), Some(high), Some(low)) => Some(before.push((high * 16 + low) as u8)),
            _ => None,
        }
    }
}

fn hex_digit(n: u8) -> (r: char)
    requires
        n < 16,
    ensures
        r == hex_char(n as int),
{
    match n {
        0 => '0',
        1 => '1',
        2 => '2',
        3 => '3',
        4 => '4',
        5 => '5',
        6 => '6',
        7 => '7',
        8 => '8',
        9 => '9',
        10 => 'a',
        11 => 'b',
        12 => 'c',
        13 => 'd',
        14 => 'e',
        _ => 'f',
    }
}

fn digit_value(c: char) -> (r: Option<u8>)
    ensures
        match r {
            Some(n) => hex_value(c) == Some(n as int) && n < 16,
            None => hex_value(c) is None,
        },
{
    let code: u32 = c as u32;
    if '0' as u32 <= code && code <= '9' as u32 {
        Some((code - '0' as u32) as u8)
    } else if 'a' as u32 <= code && code <= 'f' as u32 {
        Some((code - 'a' as u32 + 10) as u8)
    } else {
        None
    }
}

/// Write bytes as hex digits.
#[must_use]
pub fn hex_encode(bytes: &Vec<u8>) -> (r: String)
    ensures
        r@ == hex_text(bytes@),
{
    let mut out = String::new();
    let mut i: usize = 0;
    assert(out@ =~= hex_text(bytes@.take(0)));
    while i < bytes.len()
        invariant
            i <= bytes.len(),
            out@ == hex_text(bytes@.take(i as int)),
        decreases bytes.len() - i,
    {
        let byte: u8 = bytes[i];
        assert(bytes@.take(i + 1).drop_last() =~= bytes@.take(i as int));
        out.push(hex_digit(byte / 16));
        out.push(hex_digit(byte % 16));
        i = i + 1;
    }
    assert(bytes@.take(i as int) =~= bytes@);
    out
}

proof fn lemma_broken_hex(text: Seq<char>, n: int)
    requires
        0 <= n <= text.len(),
        n % 2 == 0,
        hex_bytes(text.take(n)) is None,
    ensures
        hex_bytes(text) is None,
    decreases text.len() - n,
{
    if n == text.len() {
        assert(text.take(n) =~= text);
    } else if n + 1 == text.len() {
        lemma_odd_hex(text);
    } else {
        assert(text.take(n + 2).take(n) =~= text.take(n));
        lemma_broken_hex(text, n + 2);
    }
}

proof fn lemma_odd_hex(text: Seq<char>)
    requires
        text.len() % 2 == 1,
    ensures
        hex_bytes(text) is None,
    decreases text.len(),
{
    if text.len() > 1 {
        lemma_odd_hex(text.take(text.len() - 2));
    }
}

/// Read bytes out of hex digits.
#[must_use]
pub fn hex_decode(text: &str) -> (r: Option<Vec<u8>>)
    ensures
        match r {
            Some(bytes) => hex_bytes(text@) == Some(bytes@),
            None => hex_bytes(text@) is None,
        },
{
    let chars = crate::text::chars_of(text);
    let ghost s = text@;
    if chars.len() % 2 != 0 {
        proof {
            lemma_odd_hex(s);
        }
        return None;
    }
    let mut out: Vec<u8> = Vec::new();
    let mut i: usize = 0;
    assert(hex_bytes(s.take(0)) == Some(out@)) by {
        assert(out@ =~= Seq::<u8>::empty());
    }
    while i < chars.len()
        invariant
            i <= chars.len(),
            chars.len() % 2 == 0,
            i % 2 == 0,
            chars@ == s,
            s == text@,
            hex_bytes(s.take(i as int)) == Some(out@),
        decreases chars.len() - i,
    {
        let ghost longer = s.take(i + 2);
        assert(longer.take(i as int) =~= s.take(i as int));
        match (digit_value(chars[i]), digit_value(chars[i + 1])) {
            (Some(high), Some(low)) => {
                out.push(high * 16 + low);
            },
            _ => {
                proof {
                    assert(hex_bytes(longer) is None);
                    lemma_broken_hex(s, i + 2);
                }
                return None;
            },
        }
        i = i + 2;
    }
    assert(s.take(i as int) =~= s);
    Some(out)
}

/// What was written as hex digits is read back.
pub proof fn lemma_hex_round_trip(bytes: Seq<u8>)
    ensures
        hex_bytes(hex_text(bytes)) == Some(bytes),
    decreases bytes.len(),
{
    if bytes.len() > 0 {
        let shorter = bytes.drop_last();
        lemma_hex_round_trip(shorter);
        let text = hex_text(bytes);
        let n = text.len() as int;
        assert(text.take(n - 2) =~= hex_text(shorter));
        let byte = bytes.last() as int;
        assert(hex_value(hex_char(byte / 16)) == Some(byte / 16));
        assert(hex_value(hex_char(byte % 16)) == Some(byte % 16));
        assert((byte / 16) * 16 + byte % 16 == byte);
        assert(shorter.push(bytes.last()) =~= bytes);
    }
}

/// Only what would be written is read: a text that stands for bytes is the one
/// they are written as.
pub proof fn lemma_hex_is_canonical(text: Seq<char>)
    requires
        hex_bytes(text) is Some,
    ensures
        hex_text(hex_bytes(text)->0) == text,
    decreases text.len(),
{
    if text.len() > 1 {
        let n = text.len() as int;
        let shorter = text.take(n - 2);
        lemma_hex_is_canonical(shorter);
        let before = hex_bytes(shorter)->0;
        let high = hex_value(text[n - 2])->0;
        let low = hex_value(text[n - 1])->0;
        let byte = (high * 16 + low) as u8;
        assert(byte as int == high * 16 + low);
        assert(byte as int / 16 == high);
        assert(byte as int % 16 == low);
        assert(hex_char(high) == text[n - 2]);
        assert(hex_char(low) == text[n - 1]);
        assert(before.push(byte).drop_last() =~= before);
        assert(hex_text(before.push(byte)) =~= text);
    } else {
        assert(hex_text(hex_bytes(text)->0) =~= text);
    }
}

/// The parameters a list of files was applied with, after defaults.
#[derive(Debug, PartialEq, Eq)]
pub struct FileQuery {
    pub classification: Option<String>,
    pub minimum_risk: Option<String>,
    pub limit: usize,
}

/// The parameters of a list of files by their texts.
#[verifier::ext_equal]
pub struct FileQueryFacts {
    pub classification: Option<Seq<char>>,
    pub minimum_risk: Option<Seq<char>>,
    pub limit: usize,
}

impl View for FileQuery {
    type V = FileQueryFacts;

    open spec fn view(&self) -> FileQueryFacts {
        FileQueryFacts {
            classification: text_option(self.classification),
            minimum_risk: text_option(self.minimum_risk),
            limit: self.limit,
        }
    }
}

impl FileQuery {
    pub fn copy(&self) -> (r: FileQuery)
        ensures
            r@ == self@,
    {
        FileQuery { classification: copy_option(&self.classification), minimum_risk: copy_option(&self.minimum_risk), limit: self.limit }
    }
}

/// The parameters a list of functions was applied with, after defaults.
#[derive(Debug, PartialEq, Eq)]
pub struct FunctionQuery {
    pub file: Option<String>,
    pub status: Option<String>,
    pub classification: Option<String>,
    pub minimum_risk: Option<String>,
    pub min_complexity_delta: Option<i64>,
    pub include_unchanged: bool,
    pub limit: usize,
}

/// The parameters of a list of functions by their texts.
#[verifier::ext_equal]
pub struct FunctionQueryFacts {
    pub file: Option<Seq<char>>,
    pub status: Option<Seq<char>>,
    pub classification: Option<Seq<char>>,
    pub minimum_risk: Option<Seq<char>>,
    pub min_complexity_delta: Option<i64>,
    pub include_unchanged: bool,
    pub limit: usize,
}

impl View for FunctionQuery {
    type V = FunctionQueryFacts;

    open spec fn view(&self) -> FunctionQueryFacts {
        FunctionQueryFacts {
            file: text_option(self.file),
            status: text_option(self.status),
            classification: text_option(self.classification),
            minimum_risk: text_option(self.minimum_risk),
            min_complexity_delta: self.min_complexity_delta,
            include_unchanged: self.include_unchanged,
            limit: self.limit,
        }
    }
}

impl FunctionQuery {
    pub fn copy(&self) -> (r: FunctionQuery)
        ensures
            r@ == self@,
    {
        FunctionQuery {
            file: copy_option(&self.file),
            status: copy_option(&self.status),
            classification: copy_option(&self.classification),
            minimum_risk: copy_option(&self.minimum_risk),
            min_complexity_delta: self.min_complexity_delta,
            include_unchanged: self.include_unchanged,
            limit: self.limit,
        }
    }
}

/// The applied query a cursor continues, labelled with the method it belongs to.
///
/// The label is what stops a cursor from one list being spent on another.
#[derive(Debug, PartialEq, Eq)]
pub enum CursorQuery {
    ListChangedFiles(FileQuery),
    ListChangedFunctions(FunctionQuery),
}

/// The query of a cursor by its texts.
#[verifier::ext_equal]
pub enum CursorQueryFacts {
    ListChangedFiles(FileQueryFacts),
    ListChangedFunctions(FunctionQueryFacts),
}

impl View for CursorQuery {
    type V = CursorQueryFacts;

    open spec fn view(&self) -> CursorQueryFacts {
        match self {
            CursorQuery::ListChangedFiles(query) => CursorQueryFacts::ListChangedFiles(query@),
            CursorQuery::ListChangedFunctions(query) => CursorQueryFacts::ListChangedFunctions(query@),
        }
    }
}

/// What a cursor carries: which answer it continues, and where it got to.
///
/// Bound to the schema, the analysis, the method, and the applied query, so a
/// token from one question can never be spent on another.
#[derive(Debug, PartialEq, Eq)]
pub struct CursorPayload {
    pub schema_version: u32,
    pub analysis: String,
    pub query: CursorQuery,
    pub offset: usize,
}

/// What a cursor carries by its texts.
#[verifier::ext_equal]
pub struct PayloadFacts {
    pub schema_version: u32,
    pub analysis: Seq<char>,
    pub query: CursorQueryFacts,
    pub offset: usize,
}

impl View for CursorPayload {
    type V = PayloadFacts;

    open spec fn view(&self) -> PayloadFacts {
        PayloadFacts { schema_version: self.schema_version, analysis: self.analysis@, query: self.query@, offset: self.offset }
    }
}

/// What was read out of the cursor of a request.
#[derive(Debug, PartialEq, Eq)]
pub enum CursorReading {
    /// The request has no cursor.
    Absent,
    /// The request's cursor holds nothing that was ever issued.
    Undecodable,
    /// What the request's cursor carries.
    Payload(CursorPayload),
}

/// What was read out of a cursor by its texts.
#[verifier::ext_equal]
pub enum ReadingFacts {
    Absent,
    Undecodable,
    Payload(PayloadFacts),
}

impl View for CursorReading {
    type V = ReadingFacts;

    open spec fn view(&self) -> ReadingFacts {
        match self {
            CursorReading::Absent => ReadingFacts::Absent,
            CursorReading::Undecodable => ReadingFacts::Undecodable,
            CursorReading::Payload(payload) => ReadingFacts::Payload(payload@),
        }
    }
}

/// Every parameter any method accepts.
///
/// Parameters that do not apply to the method being called are unused.
#[derive(Debug, PartialEq, Eq)]
pub struct WireParams {
    pub file: Option<String>,
    pub function_id: Option<String>,
    pub status: Option<String>,
    pub classification: Option<String>,
    pub minimum_risk: Option<String>,
    pub min_complexity_delta: Option<i64>,
    pub include_unchanged: Option<bool>,
    pub limit: Option<usize>,
    pub cursor: Option<String>,
}

/// Parameters by their texts.
#[verifier::ext_equal]
pub struct ParamFacts {
    pub file: Option<Seq<char>>,
    pub function_id: Option<Seq<char>>,
    pub status: Option<Seq<char>>,
    pub classification: Option<Seq<char>>,
    pub minimum_risk: Option<Seq<char>>,
    pub min_complexity_delta: Option<i64>,
    pub include_unchanged: Option<bool>,
    pub limit: Option<usize>,
    pub cursor: Option<Seq<char>>,
}

impl View for WireParams {
    type V = ParamFacts;

    open spec fn view(&self) -> ParamFacts {
        ParamFacts {
            file: text_option(self.file),
            function_id: text_option(self.function_id),
            status: text_option(self.status),
            classification: text_option(self.classification),
            minimum_risk: text_option(self.minimum_risk),
            min_complexity_delta: self.min_complexity_delta,
            include_unchanged: self.include_unchanged,
            limit: self.limit,
            cursor: text_option(self.cursor),
        }
    }
}

impl Default for WireParams {
    fn default() -> (r: Self)
        ensures
            r@ == no_params(),
    {
        WireParams {
            file: None,
            function_id: None,
            status: None,
            classification: None,
            minimum_risk: None,
            min_complexity_delta: None,
            include_unchanged: None,
            limit: None,
            cursor: None,
        }
    }
}

/// A request that names no parameter.
pub open spec fn no_params() -> ParamFacts {
    ParamFacts {
        file: None,
        function_id: None,
        status: None,
        classification: None,
        minimum_risk: None,
        min_complexity_delta: None,
        include_unchanged: None,
        limit: None,
        cursor: None,
    }
}

/// What a cursor continues, once it is known to belong to this analysis.
pub open spec fn admitted(reading: ReadingFacts, analysis: Seq<char>) -> Result<Option<PayloadFacts>, FaultFacts> {
    match reading {
        ReadingFacts::Absent => Ok(None),
        ReadingFacts::Undecodable => Err(invalid("`cursor` is not a cursor this server issued"@)),
        ReadingFacts::Payload(payload) => if payload.schema_version != SCHEMA_VERSION {
            Err(
                invalid(
                    "`cursor` was issued under schema version "@ + decimal(payload.schema_version as nat) + "; this server answers in version "@ + decimal(
                        SCHEMA_VERSION as nat,
                    ),
                ),
            )
        } else if payload.analysis != analysis {
            Err(invalid("`cursor` was issued for analysis `"@ + payload.analysis + "`, not `"@ + analysis + "`"@))
        } else {
            Ok(Some(payload))
        },
    }
}

/// What the cursor carries, once it is known to belong to this analysis.
pub fn cursor_payload(reading: CursorReading, analysis: &str) -> (r: Result<Option<CursorPayload>, ProjectionError>)
    ensures
        match admitted(reading@, analysis@) {
            Ok(Some(payload)) => r is Ok && r->Ok_0 is Some && r->Ok_0->0@ == payload,
            Ok(None) => r is Ok && r->Ok_0 is None,
            Err(fault) => r is Err && r->Err_0@ == fault,
        },
{
    match reading {
        CursorReading::Absent => Ok(None),
        CursorReading::Undecodable => Err(invalid_params("`cursor` is not a cursor this server issued".to_owned())),
        CursorReading::Payload(payload) => {
            if payload.schema_version != SCHEMA_VERSION {
                let mut message = "`cursor` was issued under schema version ".to_owned();
                message.append(number_text(payload.schema_version as u64).as_str());
                message.append("; this server answers in version ");
                message.append(number_text(SCHEMA_VERSION as u64).as_str());
                return Err(invalid_params(message));
            }
            if !same_text(payload.analysis.as_str(), analysis) {
                let mut message = "`cursor` was issued for analysis `".to_owned();
                message.append(payload.analysis.as_str());
                message.append("`, not `");
                message.append(analysis);
                message.append("`");
                return Err(invalid_params(message));
            }
            Ok(Some(payload))
        },
    }
}

/// Whether a parameter contradicts the one that a cursor continues.
pub open spec fn contradicts<T>(requested: Option<T>, applied: Option<T>) -> bool {
    requested is Some && requested != applied
}

/// The failure of a parameter that contradicts the query a cursor continues.
pub open spec fn disagreement_over(field: Seq<char>) -> FaultFacts {
    invalid(
        "`"@ + field
            + "` does not match the query `cursor` continues; a cursor continues one query, so start a new page without it to ask something else"@,
    )
}

fn disagreement(field: &str) -> (r: ProjectionError)
    ensures
        r@ == disagreement_over(field@),
{
    invalid_params(
        join3(
            "`",
            field,
            "` does not match the query `cursor` continues; a cursor continues one query, so start a new page without it to ask something else",
        ),
    )
}

fn text_contradicts(requested: &Option<String>, applied: &Option<String>) -> (r: bool)
    ensures
        r == contradicts(text_option(*requested), text_option(*applied)),
{
    match (requested, applied) {
        (None, _) => false,
        (Some(_), None) => true,
        (Some(a), Some(b)) => !same_text(a.as_str(), b.as_str()),
    }
}

/// The failure of a method that a cursor was not issued for.
pub open spec fn issued_elsewhere(method: Seq<char>) -> FaultFacts {
    invalid("`cursor` was issued for another method; "@ + method + " cannot continue it"@)
}

/// Whether a limit contradicts the one that a cursor continues.
pub open spec fn limit_contradicts(requested: Option<usize>, applied: usize) -> bool {
    requested is Some && applied_limit(requested) != applied
}

/// The list of files that a request asks for, and the row to start at. Without
/// a cursor the request starts at the beginning; with one, the cursor is the
/// authority, and a parameter that contradicts it is refused.
pub open spec fn file_query_of(params: ParamFacts, reading: ReadingFacts, analysis: Seq<char>) -> Result<(FileQueryFacts, usize), FaultFacts> {
    match admitted(reading, analysis) {
        Err(fault) => Err(fault),
        Ok(None) => Ok(
            (
                FileQueryFacts {
                    classification: params.classification,
                    minimum_risk: params.minimum_risk,
                    limit: applied_limit(params.limit) as usize,
                },
                0,
            ),
        ),
        Ok(Some(payload)) => match payload.query {
            CursorQueryFacts::ListChangedFunctions(_) => Err(issued_elsewhere("list_changed_files"@)),
            CursorQueryFacts::ListChangedFiles(applied) => if contradicts(params.classification, applied.classification) {
                Err(disagreement_over("classification"@))
            } else if contradicts(params.minimum_risk, applied.minimum_risk) {
                Err(disagreement_over("minimum_risk"@))
            } else if limit_contradicts(params.limit, applied.limit) {
                Err(disagreement_over("limit"@))
            } else {
                Ok((applied, payload.offset))
            },
        },
    }
}

/// The list of functions that a request asks for, and the row to start at.
pub open spec fn function_query_of(params: ParamFacts, reading: ReadingFacts, analysis: Seq<char>) -> Result<
    (FunctionQueryFacts, usize),
    FaultFacts,
> {
    match admitted(reading, analysis) {
        Err(fault) => Err(fault),
        Ok(None) => Ok(
            (
                FunctionQueryFacts {
                    file: params.file,
                    status: params.status,
                    classification: params.classification,
                    minimum_risk: params.minimum_risk,
                    min_complexity_delta: params.min_complexity_delta,
                    include_unchanged: match params.include_unchanged {
                        Some(value) => value,
                        None => false,
                    },
                    limit: applied_limit(params.limit) as usize,
                },
                0,
            ),
        ),
        Ok(Some(payload)) => match payload.query {
            CursorQueryFacts::ListChangedFiles(_) => Err(issued_elsewhere("list_changed_functions"@)),
            CursorQueryFacts::ListChangedFunctions(applied) => if contradicts(params.file, applied.file) {
                Err(disagreement_over("file"@))
            } else if contradicts(params.status, applied.status) {
                Err(disagreement_over("status"@))
            } else if contradicts(params.classification, applied.classification) {
                Err(disagreement_over("classification"@))
            } else if contradicts(params.minimum_risk, applied.minimum_risk) {
                Err(disagreement_over("minimum_risk"@))
            } else if contradicts(params.min_complexity_delta, applied.min_complexity_delta) {
                Err(disagreement_over("min_complexity_delta"@))
            } else if contradicts(params.include_unchanged, Some(applied.include_unchanged)) {
                Err(disagreement_over("include_unchanged"@))
            } else if limit_contradicts(params.limit, applied.limit) {
                Err(disagreement_over("limit"@))
            } else {
                Ok((applied, payload.offset))
            },
        },
    }
}

impl WireParams {
    /// Whether the page size this request asks for, after bounds, is another
    /// than the one a cursor continues.
    fn contradicts_limit(&self, applied: usize) -> (r: bool)
        ensures
            r == limit_contradicts(self.limit, applied),
    {
        match self.limit {
            Some(limit) => canonical_limit(Some(limit)) != applied,
            None => false,
        }
    }

    /// The file list this request asks for, and the row to start at.
    ///
    /// Without a cursor the request starts at the beginning. With one, the
    /// cursor is the authority on what was asked and where to continue: a
    /// parameter that contradicts it is rejected rather than quietly answering
    /// a different question than the one being paged through.
    pub fn file_query(&self, reading: CursorReading, analysis: &str) -> (r: Result<(FileQuery, usize), ProjectionError>)
        ensures
            match file_query_of(self@, reading@, analysis@) {
                Ok((query, offset)) => r is Ok && r->Ok_0.0@ == query && r->Ok_0.1 == offset,
                Err(fault) => r is Err && r->Err_0@ == fault,
            },
    {
        let payload = match cursor_payload(reading, analysis) {
            Err(error) => {
                return Err(error);
            },
            Ok(None) => {
                return Ok(
                    (
                        FileQuery {
                            classification: copy_option(&self.classification),
                            minimum_risk: copy_option(&self.minimum_risk),
                            limit: canonical_limit(self.limit),
                        },
                        0,
                    ),
                );
            },
            Ok(Some(payload)) => payload,
        };
        match payload.query {
            CursorQuery::ListChangedFunctions(_) => Err(
                invalid_params(join3("`cursor` was issued for another method; ", "list_changed_files", " cannot continue it")),
            ),
            CursorQuery::ListChangedFiles(applied) => {
                if text_contradicts(&self.classification, &applied.classification) {
                    return Err(disagreement("classification"));
                }
                if text_contradicts(&self.minimum_risk, &applied.minimum_risk) {
                    return Err(disagreement("minimum_risk"));
                }
                if self.contradicts_limit(applied.limit) {
                    return Err(disagreement("limit"));
                }
                Ok((applied, payload.offset))
            },
        }
    }

    /// The function list this request asks for, and the row to start at.
    pub fn function_query(&self, reading: CursorReading, analysis: &str) -> (r: Result<(FunctionQuery, usize), ProjectionError>)
        ensures
            match function_query_of(self@, reading@, analysis@) {
                Ok((query, offset)) => r is Ok && r->Ok_0.0@ == query && r->Ok_0.1 == offset,
                Err(fault) => r is Err && r->Err_0@ == fault,
            },
    {
        let payload = match cursor_payload(reading, analysis) {
            Err(error) => {
                return Err(error);
            },
            Ok(None) => {
                return Ok(
                    (
                        FunctionQuery {
                            file: copy_option(&self.file),
                            status: copy_option(&self.status),
                            classification: copy_option(&self.classification),
                            minimum_risk: copy_option(&self.minimum_risk),
                            min_complexity_delta: self.min_complexity_delta,
                            include_unchanged: match self.include_unchanged {
                                Some(value) => value,
                                None => false,
                            },
                            limit: canonical_limit(self.limit),
                        },
                        0,
                    ),
                );
            },
            Ok(Some(payload)) => payload,
        };
        match payload.query {
            CursorQuery::ListChangedFiles(_) => Err(
                invalid_params(join3("`cursor` was issued for another method; ", "list_changed_functions", " cannot continue it")),
            ),
            CursorQuery::ListChangedFunctions(applied) => {
                if text_contradicts(&self.file, &applied.file) {
                    return Err(disagreement("file"));
                }
                if text_contradicts(&self.status, &applied.status) {
                    return Err(disagreement("status"));
                }
                if text_contradicts(&self.classification, &applied.classification) {
                    return Err(disagreement("classification"));
                }
                if text_contradicts(&self.minimum_risk, &applied.minimum_risk) {
                    return Err(disagreement("minimum_risk"));
                }
                let other_delta = match (self.min_complexity_delta, applied.min_complexity_delta) {
                    (None, _) => false,
                    (Some(_), None) => true,
                    (Some(a), Some(b)) => a != b,
                };
                if other_delta {
                    return Err(disagreement("min_complexity_delta"));
                }
                let other_unchanged = match self.include_unchanged {
                    Some(value) => value != applied.include_unchanged,
                    None => false,
                };
                if other_unchanged {
                    return Err(disagreement("include_unchanged"));
                }
                if self.contradicts_limit(applied.limit) {
                    return Err(disagreement("limit"));
                }
                Ok((applied, payload.offset))
            },
        }
    }
}

/// What the cursor of the next page carries, where there is a next page.
pub open spec fn next_payload(window: PageWindow, query: CursorQueryFacts, analysis: Seq<char>) -> Option<PayloadFacts> {
    match window.next_offset {
        Some(offset) => Some(PayloadFacts { schema_version: SCHEMA_VERSION, analysis, query, offset }),
        None => None,
    }
}

/// A payload by its texts, where there is one.
pub open spec fn payload_facts(payload: Option<CursorPayload>) -> Option<PayloadFacts> {
    match payload {
        Some(payload) => Some(payload@),
        None => None,
    }
}

/// What the cursor of the next page carries: nothing exactly when the page is
/// the last one.
pub fn continuation(window: &PageWindow, query: CursorQuery, analysis: &str) -> (r: Option<CursorPayload>)
    ensures
        payload_facts(r) == next_payload(*window, query@, analysis@),
{
    match window.next_offset {
        Some(offset) => Some(CursorPayload { schema_version: SCHEMA_VERSION, analysis: analysis.to_owned(), query, offset }),
        None => None,
    }
}

/// A cursor handed back unchanged continues the same list of files, where the
/// page before it ended, whether or not the request repeats its parameters.
pub proof fn lemma_cursor_continues_files(params: ParamFacts, window: PageWindow, analysis: Seq<char>)
    requires
        window.next_offset is Some,
    ensures
        ({
            let applied = file_query_of(params, ReadingFacts::Absent, analysis)->Ok_0.0;
            let cursor = ReadingFacts::Payload(next_payload(window, CursorQueryFacts::ListChangedFiles(applied), analysis)->0);
            &&& file_query_of(params, cursor, analysis) == Ok::<(FileQueryFacts, usize), FaultFacts>((applied, window.next_offset->0))
            &&& file_query_of(no_params(), cursor, analysis) == Ok::<(FileQueryFacts, usize), FaultFacts>((applied, window.next_offset->0))
        }),
{
}

/// A cursor handed back unchanged continues the same list of functions, where
/// the page before it ended, whether or not the request repeats its parameters.
pub proof fn lemma_cursor_continues_functions(params: ParamFacts, window: PageWindow, analysis: Seq<char>)
    requires
        window.next_offset is Some,
    ensures
        ({
            let applied = function_query_of(params, ReadingFacts::Absent, analysis)->Ok_0.0;
            let cursor = ReadingFacts::Payload(next_payload(window, CursorQueryFacts::ListChangedFunctions(applied), analysis)->0);
            &&& function_query_of(params, cursor, analysis) == Ok::<(FunctionQueryFacts, usize), FaultFacts>((applied, window.next_offset->0))
            &&& function_query_of(no_params(), cursor, analysis) == Ok::<(FunctionQueryFacts, usize), FaultFacts>((applied, window.next_offset->0))
        }),
{
    let applied = function_query_of(params, ReadingFacts::Absent, analysis)->Ok_0.0;
    assert(!contradicts(params.include_unchanged, Some(applied.include_unchanged)));
    assert(!limit_contradicts(params.limit, applied.limit));
}

/// A token of one question is never spent on another: neither on another list
/// nor on another analysis.
pub proof fn lemma_cursor_is_bound(params: ParamFacts, payload: PayloadFacts, analysis: Seq<char>)
    ensures
        payload.analysis != analysis ==> file_query_of(params, ReadingFacts::Payload(payload), analysis) is Err && function_query_of(
            params,
            ReadingFacts::Payload(payload),
            analysis,
        ) is Err,
        payload.query is ListChangedFunctions ==> file_query_of(params, ReadingFacts::Payload(payload), analysis) is Err,
        payload.query is ListChangedFiles ==> function_query_of(params, ReadingFacts::Payload(payload), analysis) is Err,
{
}

} // verus!

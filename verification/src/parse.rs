//! The line grammar: recognises the error lines of Rust, TypeScript,
//! Python and Go tool output, plus generic `error:` / `fatal:` lines, and
//! turns each into a [`ParsedError`].

use vstd::prelude::*;
use crate::text::{
    CharClass, occurs_at, contains_seq, span, rspan, lemma_span, lemma_rspan, parse_digits,
    trim, lowercase, lines, lines_from, chars_of, has_at, contains_lit, span_of, rspan_of,
    parse_digit_run, string_of, string_of_range, append_range, line_bounds,
    trim_bounds, to_lowercase, char_in_class, vec_range, all_space, lemma_space_lacks,
    lemma_trim_empty, lemma_lines_join, blank_line_between,
};

verus! {

// ---------------------------------------------------------------------------
// Types
// ---------------------------------------------------------------------------

/// A single parsed error from build/test output.
#[derive(Debug, Clone)]
pub struct ParsedError {
    pub file: Option<String>,
    pub line: Option<usize>,
    pub column: Option<usize>,
    pub message: String,
    pub error_type: ErrorType,
    pub severity: Severity,
    pub raw_line: String,
}

#[derive(Debug, Clone, Copy, PartialEq, Eq, Structural)]
pub enum ErrorType {
    CompileError,
    TypeError,
    ImportError,
    TestFailure,
    LinkError,
    Warning,
    Panic,
    Unknown,
}

/// How serious an entry is; `Error < Warning < Info`.
#[derive(Debug, Clone, Copy, PartialEq, Eq, PartialOrd, Ord, Structural)]
pub enum Severity {
    Error,
    Warning,
    Info,
}

/// A [`ParsedError`] with its strings taken as character sequences.
pub struct ErrorModel {
    pub file: Option<Seq<char>>,
    pub line: Option<usize>,
    pub column: Option<usize>,
    pub message: Seq<char>,
    pub error_type: ErrorType,
    pub severity: Severity,
    pub raw_line: Seq<char>,
}

pub open spec fn opt_view(o: Option<String>) -> Option<Seq<char>> {
    match o {
        Some(s) => Some(s@),
        None => None,
    }
}

impl View for ParsedError {
    type V = ErrorModel;

    open spec fn view(&self) -> ErrorModel {
        ErrorModel {
            file: opt_view(self.file),
            line: self.line,
            column: self.column,
            message: self.message@,
            error_type: self.error_type,
            severity: self.severity,
            raw_line: self.raw_line@,
        }
    }
}

pub open spec fn opt_model(o: Option<ParsedError>) -> Option<ErrorModel> {
    match o {
        Some(e) => Some(e@),
        None => None,
    }
}

pub open spec fn models(s: Seq<ParsedError>) -> Seq<ErrorModel> {
    s.map_values(|e: ParsedError| e@)
}

pub open spec fn model_of(
    file: Option<Seq<char>>,
    line: Option<usize>,
    column: Option<usize>,
    message: Seq<char>,
    error_type: ErrorType,
    severity: Severity,
    raw_line: Seq<char>,
) -> ErrorModel {
    ErrorModel { file, line, column, message, error_type, severity, raw_line }
}

/// A copy of an optional string.
pub fn copy_opt_string(o: &Option<String>) -> (r: Option<String>)
    ensures
        opt_view(r) == opt_view(*o),
{
    match o {
        Some(s) => Some(s.clone()),
        None => None,
    }
}

impl ParsedError {
    /// A copy of this entry.
    pub fn duplicate(&self) -> (r: ParsedError)
        ensures
            r@ == self@,
    {
        ParsedError {
            file: copy_opt_string(&self.file),
            line: self.line,
            column: self.column,
            message: self.message.clone(),
            error_type: self.error_type,
            severity: self.severity,
            raw_line: self.raw_line.clone(),
        }
    }
}

// ---------------------------------------------------------------------------
// The line grammar
//
// Each spec function below states what one pattern of the grammar captures
// from a line (a sequence without line feeds). Where a pattern leaves the
// split of a line open, the choice is the one a backtracking regular
// expression engine makes: a lazy `(.+?)` takes the shortest capture that
// lets the rest match, a greedy run the longest, and an unanchored pattern
// its leftmost match.
// ---------------------------------------------------------------------------

/// `^error(?:\[E\d+\])?: (.+)$`: the message.
pub open spec fn rust_error_capture(l: Seq<char>) -> Option<Seq<char>> {
    if occurs_at(l, 0, "error: "@) && l.len() > "error: "@.len() {
        Some(l.skip("error: "@.len() as int))
    } else if occurs_at(l, 0, "error[E"@) {
        let d = "error[E"@.len() as int;
        let e = span(l, d, CharClass::Digit);
        if e > d && occurs_at(l, e, "]: "@) && l.len() > e + "]: "@.len() {
            Some(l.skip(e + "]: "@.len()))
        } else {
            None
        }
    } else {
        None
    }
}

/// `^warning(?:\[[\w]+\])?: (.+)$`: the message.
pub open spec fn rust_warning_capture(l: Seq<char>) -> Option<Seq<char>> {
    if occurs_at(l, 0, "warning: "@) && l.len() > "warning: "@.len() {
        Some(l.skip("warning: "@.len() as int))
    } else if occurs_at(l, 0, "warning["@) {
        let d = "warning["@.len() as int;
        let e = span(l, d, CharClass::Word);
        if e > d && occurs_at(l, e, "]: "@) && l.len() > e + "]: "@.len() {
            Some(l.skip(e + "]: "@.len()))
        } else {
            None
        }
    } else {
        None
    }
}

/// `^\s+--> (.+):(\d+):(\d+)$`: the file, the line digits and the column
/// digits. The column is the digit run that ends the line, the line digits
/// the run before the colon in front of it.
pub open spec fn rust_location_capture(l: Seq<char>) -> Option<(Seq<char>, Seq<char>, Seq<char>)> {
    let a = span(l, 0, CharClass::Space);
    let b = a + "--> "@.len();
    let c2 = rspan(l, l.len() as int, CharClass::Digit);
    let q = c2 - 1;
    let c1 = rspan(l, q, CharClass::Digit);
    let p = c1 - 1;
    if a > 0 && occurs_at(l, a, "--> "@) && c2 < l.len() && c1 < q && b < p && l[q] == ':' && l[p]
        == ':' {
        Some((l.subrange(b, p), l.subrange(c1, q), l.subrange(c2, l.len() as int)))
    } else {
        None
    }
}

/// `^test (.+) \.\.\. FAILED$`: the test name.
pub open spec fn test_failure_capture(l: Seq<char>) -> Option<Seq<char>> {
    let pre = "test "@;
    let suf = " ... FAILED"@;
    if occurs_at(l, 0, pre) && l.len() > pre.len() + suf.len() && occurs_at(
        l,
        l.len() - suf.len(),
        suf,
    ) {
        Some(l.subrange(pre.len() as int, l.len() - suf.len()))
    } else {
        None
    }
}

/// ` panicked at ` stands at `m` with at least one character after it.
pub open spec fn panicked_at(l: Seq<char>, m: int) -> bool {
    occurs_at(l, m, " panicked at "@) && m + " panicked at "@.len() < l.len()
}

/// The last index where [`panicked_at`] holds, or -1.
pub open spec fn last_panicked_at(l: Seq<char>) -> int {
    if exists|m: int| panicked_at(l, m) {
        choose|m: int| panicked_at(l, m) && forall|m2: int| panicked_at(l, m2) ==> m2 <= m
    } else {
        -1
    }
}

/// `thread '` stands at `s`, and the quote at `q` can close the thread
/// name: a ` panicked at ` follows it, right after it or further on.
pub open spec fn panic_opener(l: Seq<char>, s: int, q: int) -> bool {
    &&& occurs_at(l, s, "thread '"@)
    &&& s + "thread '"@.len() < q
    &&& q + 1 <= last_panicked_at(l)
    &&& l[q] == '\''
}

/// The opener with the leftmost start, and among those the shortest name.
pub open spec fn panic_first_opener(l: Seq<char>, s: int, q: int) -> bool {
    &&& panic_opener(l, s, q)
    &&& forall|s2: int, q2: int|
        #![trigger panic_opener(l, s2, q2)]
        panic_opener(l, s2, q2) ==> s < s2 || (s == s2 && q <= q2)
}

/// `thread '(.+?)'.* panicked at (.+)`, unanchored: the thread name and
/// what the panic reports, as in `thread 'main' panicked at 'boom',
/// src/main.rs:2:5` or `thread 'main' (7) panicked at src/main.rs:2:5:`.
pub open spec fn panic_capture(l: Seq<char>) -> Option<(Seq<char>, Seq<char>)> {
    if exists|s: int, q: int| panic_opener(l, s, q) {
        let (s, q) = choose|s: int, q: int| panic_first_opener(l, s, q);
        Some(
            (
                l.subrange(s + "thread '"@.len(), q),
                l.skip(last_panicked_at(l) + " panicked at "@.len()),
            ),
        )
    } else {
        None
    }
}

/// Where the line digits of a TypeScript diagnostic with `(` at `p` end.
pub open spec fn ts_line_end(l: Seq<char>, p: int) -> int {
    span(l, p + 1, CharClass::Digit)
}

/// Where its column digits end.
pub open spec fn ts_column_end(l: Seq<char>, p: int) -> int {
    span(l, ts_line_end(l, p) + 1, CharClass::Digit)
}

/// Whether its level is `error` (else `warning`).
pub open spec fn ts_is_error(l: Seq<char>, p: int) -> bool {
    occurs_at(l, ts_column_end(l, p) + "): "@.len(), "error "@)
}

/// Where its code `TS...` starts, or -1 when no level stands there.
pub open spec fn ts_code_start(l: Seq<char>, p: int) -> int {
    let k = ts_column_end(l, p) + "): "@.len();
    if occurs_at(l, k, "error "@) {
        k + "error "@.len()
    } else if occurs_at(l, k, "warning "@) {
        k + "warning "@.len()
    } else {
        -1
    }
}

/// Where the digits of its code end.
pub open spec fn ts_code_end(l: Seq<char>, p: int) -> int {
    span(l, ts_code_start(l, p) + "TS"@.len(), CharClass::Digit)
}

/// `\((\d+),(\d+)\): (error|warning) (TS\d+): (.+)$` matches from `p` on.
pub open spec fn ts_tail(l: Seq<char>, p: int) -> bool {
    let a = ts_line_end(l, p);
    let b = ts_column_end(l, p);
    let k = ts_code_start(l, p);
    let c = ts_code_end(l, p);
    &&& 0 < p < l.len()
    &&& l[p] == '('
    &&& p + 1 < a < l.len()
    &&& l[a] == ','
    &&& a + 1 < b
    &&& occurs_at(l, b, "): "@)
    &&& k >= 0
    &&& occurs_at(l, k, "TS"@)
    &&& k + "TS"@.len() < c
    &&& occurs_at(l, c, ": "@)
    &&& l.len() > c + ": "@.len()
}

/// The captures of a TypeScript diagnostic.
pub struct TsCapture {
    pub file: Seq<char>,
    pub line: Seq<char>,
    pub column: Seq<char>,
    pub is_error: bool,
    pub code: Seq<char>,
    pub text: Seq<char>,
}

/// `^(.+?)\((\d+),(\d+)\): (error|warning) (TS\d+): (.+)$`, the file being
/// the shortest prefix that lets the rest match.
pub open spec fn typescript_capture(l: Seq<char>) -> Option<TsCapture> {
    if exists|p: int| ts_tail(l, p) {
        let p = choose|p: int| ts_tail(l, p) && forall|p2: int| 0 <= p2 < p ==> !ts_tail(l, p2);
        Some(
            TsCapture {
                file: l.take(p),
                line: l.subrange(p + 1, ts_line_end(l, p)),
                column: l.subrange(ts_line_end(l, p) + 1, ts_column_end(l, p)),
                is_error: ts_is_error(l, p),
                code: l.subrange(ts_code_start(l, p), ts_code_end(l, p)),
                text: l.skip(ts_code_end(l, p) + ": "@.len()),
            },
        )
    } else {
        None
    }
}

/// Where the file name of a Python traceback line starts.
pub open spec fn py_file_start(l: Seq<char>) -> int {
    span(l, 0, CharClass::Space) + "File \""@.len()
}

/// `", line ` stands at `q`, ends a non-empty file name and a digit follows.
pub open spec fn py_file_end(l: Seq<char>, q: int) -> bool {
    &&& occurs_at(l, span(l, 0, CharClass::Space), "File \""@)
    &&& py_file_start(l) < q
    &&& occurs_at(l, q, "\", line "@)
    &&& q + "\", line "@.len() < l.len()
    &&& crate::text::is_digit(l[q + "\", line "@.len()])
}

/// `^\s*File "(.+?)", line (\d+)`: the file and the line digits.
pub open spec fn python_file_capture(l: Seq<char>) -> Option<(Seq<char>, Seq<char>)> {
    if exists|q: int| py_file_end(l, q) {
        let q = choose|q: int| py_file_end(l, q) && forall|q2: int| 0 <= q2 < q ==> !py_file_end(l, q2);
        let d = q + "\", line "@.len();
        Some((l.subrange(py_file_start(l), q), l.subrange(d, span(l, d, CharClass::Digit))))
    } else {
        None
    }
}

/// `^(Import|Module)Error: (.+)$`: the message.
pub open spec fn python_import_capture(l: Seq<char>) -> Option<Seq<char>> {
    if (occurs_at(l, 0, "ImportError: "@) || occurs_at(l, 0, "ModuleError: "@)) && l.len()
        > "ImportError: "@.len() {
        Some(l.skip("ImportError: "@.len() as int))
    } else {
        None
    }
}

/// `^(\w+Error): (.+)$`: the exception name and the message. The name is
/// the leading run of word characters, which must end in `Error`.
pub open spec fn python_exception_capture(l: Seq<char>) -> Option<(Seq<char>, Seq<char>)> {
    let w = span(l, 0, CharClass::Word);
    if w > "Error"@.len() && occurs_at(l, w - "Error"@.len(), "Error"@) && occurs_at(l, w, ": "@)
        && l.len() > w + ": "@.len() {
        Some((l.take(w), l.skip(w + ": "@.len())))
    } else {
        None
    }
}

/// `:(\d+):(\d+): (.+)$` matches after a file name that ends at `p` in `.go`.
pub open spec fn go_tail(l: Seq<char>, p: int) -> bool {
    let a = span(l, p + 1, CharClass::Digit);
    let b = span(l, a + 1, CharClass::Digit);
    &&& ".go"@.len() < p < l.len()
    &&& occurs_at(l, p - ".go"@.len(), ".go"@)
    &&& l[p] == ':'
    &&& p + 1 < a < l.len()
    &&& l[a] == ':'
    &&& a + 1 < b
    &&& occurs_at(l, b, ": "@)
    &&& l.len() > b + ": "@.len()
}

/// `^(.+?\.go):(\d+):(\d+): (.+)$`: file, line digits, column digits and
/// message, the file being the shortest that lets the rest match.
pub open spec fn go_capture(l: Seq<char>) -> Option<(Seq<char>, Seq<char>, Seq<char>, Seq<char>)> {
    if exists|p: int| go_tail(l, p) {
        let p = choose|p: int| go_tail(l, p) && forall|p2: int| 0 <= p2 < p ==> !go_tail(l, p2);
        let a = span(l, p + 1, CharClass::Digit);
        let b = span(l, a + 1, CharClass::Digit);
        Some((l.take(p), l.subrange(p + 1, a), l.subrange(a + 1, b), l.skip(b + ": "@.len())))
    } else {
        None
    }
}

/// Whether a line counts as a generic error, judged on its lowercase form.
pub open spec fn is_generic_error(lower: Seq<char>) -> bool {
    contains_seq(lower, "error:"@) || contains_seq(lower, "fatal:"@)
}

// ---------------------------------------------------------------------------
// From captures to entries
// ---------------------------------------------------------------------------

/// The kind of a Rust compiler error, judged by its message.
pub open spec fn classify_rust_message(m: Seq<char>) -> ErrorType {
    if contains_seq(m, "unresolved import"@) || contains_seq(m, "could not find"@) {
        ErrorType::ImportError
    } else if contains_seq(m, "mismatched types"@) || contains_seq(m, "expected"@) {
        ErrorType::TypeError
    } else if contains_seq(m, "cannot find"@) || contains_seq(m, "not found in scope"@) {
        ErrorType::ImportError
    } else if contains_seq(m, "linking with"@) {
        ErrorType::LinkError
    } else {
        ErrorType::CompileError
    }
}

/// The entry for a Rust line: an error, a location marker or a warning.
pub open spec fn rust_entry(l: Seq<char>) -> Option<ErrorModel> {
    if let Some(m) = rust_error_capture(l) {
        Some(model_of(None, None, None, m, classify_rust_message(m), Severity::Error, l))
    } else if let Some((f, d1, d2)) = rust_location_capture(l) {
        Some(
            model_of(
                Some(f),
                parse_digits(d1),
                parse_digits(d2),
                Seq::empty(),
                ErrorType::CompileError,
                Severity::Info,
                l,
            ),
        )
    } else if let Some(m) = rust_warning_capture(l) {
        Some(model_of(None, None, None, m, ErrorType::Warning, Severity::Warning, l))
    } else {
        None
    }
}

/// The entry for a failed Rust test or a panic.
pub open spec fn rust_test_entry(l: Seq<char>) -> Option<ErrorModel> {
    if let Some(name) = test_failure_capture(l) {
        Some(
            model_of(
                None,
                None,
                None,
                "Test failed: "@ + name,
                ErrorType::TestFailure,
                Severity::Error,
                l,
            ),
        )
    } else if let Some((thread, at)) = panic_capture(l) {
        Some(
            model_of(
                None,
                None,
                None,
                "Panic in "@ + thread + ": "@ + at,
                ErrorType::Panic,
                Severity::Error,
                l,
            ),
        )
    } else {
        None
    }
}

/// The entry for a TypeScript diagnostic.
pub open spec fn typescript_entry(l: Seq<char>) -> Option<ErrorModel> {
    if let Some(c) = typescript_capture(l) {
        Some(
            model_of(
                Some(c.file),
                parse_digits(c.line),
                parse_digits(c.column),
                c.code + ": "@ + c.text,
                ErrorType::TypeError,
                if c.is_error {
                    Severity::Error
                } else {
                    Severity::Warning
                },
                l,
            ),
        )
    } else {
        None
    }
}

/// The entry for a Python traceback location, import error or exception.
pub open spec fn python_entry(l: Seq<char>) -> Option<ErrorModel> {
    if let Some((f, d)) = python_file_capture(l) {
        Some(
            model_of(
                Some(f),
                parse_digits(d),
                None,
                Seq::empty(),
                ErrorType::CompileError,
                Severity::Info,
                l,
            ),
        )
    } else if let Some(m) = python_import_capture(l) {
        Some(model_of(None, None, None, m, ErrorType::ImportError, Severity::Error, l))
    } else if let Some((name, m)) = python_exception_capture(l) {
        Some(
            model_of(
                None,
                None,
                None,
                name + ": "@ + m,
                ErrorType::CompileError,
                Severity::Error,
                l,
            ),
        )
    } else {
        None
    }
}

/// The entry for a Go compiler error.
pub open spec fn go_entry(l: Seq<char>) -> Option<ErrorModel> {
    if let Some((f, d1, d2, m)) = go_capture(l) {
        Some(
            model_of(
                Some(f),
                parse_digits(d1),
                parse_digits(d2),
                m,
                ErrorType::CompileError,
                Severity::Error,
                l,
            ),
        )
    } else {
        None
    }
}

/// The entry for a generic error line, given the line's lowercase form.
pub open spec fn generic_entry(l: Seq<char>, lower: Seq<char>) -> Option<ErrorModel> {
    if is_generic_error(lower) {
        Some(model_of(None, None, None, trim(l), ErrorType::Unknown, Severity::Error, l))
    } else {
        None
    }
}

/// The entry for one line: the first family whose grammar matches.
pub open spec fn line_entry(l: Seq<char>) -> Option<ErrorModel> {
    if rust_entry(l) is Some {
        rust_entry(l)
    } else if rust_test_entry(l) is Some {
        rust_test_entry(l)
    } else if typescript_entry(l) is Some {
        typescript_entry(l)
    } else if python_entry(l) is Some {
        python_entry(l)
    } else if go_entry(l) is Some {
        go_entry(l)
    } else if all_space(l) {
        // A line of white space only lowercases to itself, which names no
        // error.
        None
    } else {
        generic_entry(l, lowercase(l))
    }
}

/// The entries of a sequence of lines, in order.
pub open spec fn line_entries(ls: Seq<Seq<char>>) -> Seq<ErrorModel>
    decreases ls.len(),
{
    if ls.len() == 0 {
        Seq::empty()
    } else {
        let rest = line_entries(ls.drop_last());
        match line_entry(ls.last()) {
            Some(e) => rest.push(e),
            None => rest,
        }
    }
}

/// The entries of raw build/test output.
pub open spec fn parsed_output(output: Seq<char>) -> Seq<ErrorModel> {
    line_entries(lines(output))
}

// ---------------------------------------------------------------------------
// Recognisers
// ---------------------------------------------------------------------------

/// The kind of a Rust compiler error, judged by its message.
pub fn classify_rust_error(message: &str) -> (r: ErrorType)
    ensures
        r == classify_rust_message(message@),
{
    let m = chars_of(message);
    if contains_lit(&m, "unresolved import") || contains_lit(&m, "could not find") {
        ErrorType::ImportError
    } else if contains_lit(&m, "mismatched types") || contains_lit(&m, "expected") {
        ErrorType::TypeError
    } else if contains_lit(&m, "cannot find") || contains_lit(&m, "not found in scope") {
        ErrorType::ImportError
    } else if contains_lit(&m, "linking with") {
        ErrorType::LinkError
    } else {
        ErrorType::CompileError
    }
}

/// Where the message of a `error...: ` line starts.
fn rust_error_start(l: &Vec<char>) -> (r: Option<usize>)
    ensures
        match r {
            Some(k) => k <= l@.len() && rust_error_capture(l@) == Some(l@.skip(k as int)),
            None => rust_error_capture(l@) is None,
        },
{
    proof {
        reveal_strlit("error: ");
        reveal_strlit("error[E");
        reveal_strlit("]: ");
    }
    if has_at(l, 0, "error: ") && l.len() > 7 {
        return Some(7);
    }
    if has_at(l, 0, "error[E") {
        let e = span_of(l, 7, CharClass::Digit);
        if e > 7 && has_at(l, e, "]: ") && l.len() > e + 3 {
            return Some(e + 3);
        }
    }
    None
}

/// Where the message of a `warning...: ` line starts.
fn rust_warning_start(l: &Vec<char>) -> (r: Option<usize>)
    ensures
        match r {
            Some(k) => k <= l@.len() && rust_warning_capture(l@) == Some(l@.skip(k as int)),
            None => rust_warning_capture(l@) is None,
        },
{
    proof {
        reveal_strlit("warning: ");
        reveal_strlit("warning[");
        reveal_strlit("]: ");
    }
    if has_at(l, 0, "warning: ") && l.len() > 9 {
        return Some(9);
    }
    if has_at(l, 0, "warning[") {
        let e = span_of(l, 8, CharClass::Word);
        if e > 8 && has_at(l, e, "]: ") && l.len() > e + 3 {
            return Some(e + 3);
        }
    }
    None
}

/// The bounds `(b, p, c1, q, c2)` of a location marker: the file is
/// `l[b..p]`, the line digits `l[c1..q]`, the column digits `l[c2..]`.
fn rust_location_bounds(l: &Vec<char>) -> (r: Option<(usize, usize, usize, usize, usize)>)
    ensures
        match r {
            Some((b, p, c1, q, c2)) => b <= p <= c1 <= q <= c2 <= l@.len() && rust_location_capture(
                l@,
            ) == Some(
                (
                    l@.subrange(b as int, p as int),
                    l@.subrange(c1 as int, q as int),
                    l@.subrange(c2 as int, l@.len() as int),
                ),
            ),
            None => rust_location_capture(l@) is None,
        },
{
    proof {
        reveal_strlit("--> ");
    }
    let a = span_of(l, 0, CharClass::Space);
    if a == 0 || !has_at(l, a, "--> ") {
        return None;
    }
    let n = l.len();
    assert(a + 4 <= n);
    let b = a + 4;
    let c2 = rspan_of(l, l.len(), CharClass::Digit);
    if c2 == l.len() || c2 == 0 {
        proof {
            if c2 == 0 {
                assert(rspan(l@, -1, CharClass::Digit) == -1);
            }
        }
        return None;
    }
    let q = c2 - 1;
    let c1 = rspan_of(l, q, CharClass::Digit);
    if c1 >= q || c1 == 0 {
        return None;
    }
    let p = c1 - 1;
    if b < p && l[q] == ':' && l[p] == ':' {
        Some((b, p, c1, q, c2))
    } else {
        None
    }
}

/// Rust compiler errors, location markers and warnings.
fn try_parse_rust_error(l: &Vec<char>) -> (r: Option<ParsedError>)
    ensures
        opt_model(r) == rust_entry(l@),
{
    if let Some(k) = rust_error_start(l) {
        let message = string_of_range(l, k, l.len());
        let error_type = classify_rust_error(message.as_str());
        return Some(
            ParsedError {
                file: None,
                line: None,
                column: None,
                message,
                error_type,
                severity: Severity::Error,
                raw_line: string_of(l),
            },
        );
    }
    if let Some((b, p, c1, q, c2)) = rust_location_bounds(l) {
        proof {
            lemma_rspan(l@, l@.len() as int, CharClass::Digit);
        }
        return Some(
            ParsedError {
                file: Some(string_of_range(l, b, p)),
                line: parse_digit_run(l, c1, q),
                column: parse_digit_run(l, c2, l.len()),
                message: String::new(),
                error_type: ErrorType::CompileError,
                severity: Severity::Info,
                raw_line: string_of(l),
            },
        );
    }
    if let Some(k) = rust_warning_start(l) {
        return Some(
            ParsedError {
                file: None,
                line: None,
                column: None,
                message: string_of_range(l, k, l.len()),
                error_type: ErrorType::Warning,
                severity: Severity::Warning,
                raw_line: string_of(l),
            },
        );
    }
    None
}

/// The bounds of the test name in a `test ... FAILED` line.
fn test_name_bounds(l: &Vec<char>) -> (r: Option<(usize, usize)>)
    ensures
        match r {
            Some((a, b)) => a <= b <= l@.len() && test_failure_capture(l@) == Some(
                l@.subrange(a as int, b as int),
            ),
            None => test_failure_capture(l@) is None,
        },
{
    proof {
        reveal_strlit("test ");
        reveal_strlit(" ... FAILED");
    }
    let n = l.len();
    if has_at(l, 0, "test ") && n > 16 && has_at(l, n - 11, " ... FAILED") {
        Some((5, n - 11))
    } else {
        None
    }
}

proof fn lemma_panic_literals()
    ensures
        " panicked at "@.len() == 13,
        "thread '"@.len() == 8,
{
    reveal_strlit(" panicked at ");
    reveal_strlit("thread '");
}

/// The last index where ` panicked at ` stands with a character after it.
fn last_panicked_index(l: &Vec<char>) -> (r: Option<usize>)
    ensures
        match r {
            Some(m) => panicked_at(l@, m as int) && last_panicked_at(l@) == m,
            None => last_panicked_at(l@) == -1 && forall|m: int| !panicked_at(l@, m),
        },
{
    proof {
        lemma_panic_literals();
    }
    let n = l.len();
    let mut m = n;
    while m > 0
        invariant
            m <= n == l@.len(),
            " panicked at "@.len() == 13,
            forall|m2: int| m2 >= m ==> !panicked_at(l@, m2),
        decreases m,
    {
        m = m - 1;
        if has_at(l, m, " panicked at ") && m + 13 < n {
            proof {
                assert(panicked_at(l@, m as int) && forall|m2: int|
                    panicked_at(l@, m2) ==> m2 <= m);
                let c = choose|c: int|
                    panicked_at(l@, c) && forall|m2: int| panicked_at(l@, m2) ==> m2 <= c;
                assert(c == m);
            }
            return Some(m);
        }
    }
    None
}

/// Rust test failures and panics.
fn try_parse_rust_test_failure(l: &Vec<char>) -> (r: Option<ParsedError>)
    ensures
        opt_model(r) == rust_test_entry(l@),
{
    if let Some((a, b)) = test_name_bounds(l) {
        let mut message = String::from_str("Test failed: ");
        append_range(&mut message, l, a, b);
        return Some(
            ParsedError {
                file: None,
                line: None,
                column: None,
                message,
                error_type: ErrorType::TestFailure,
                severity: Severity::Error,
                raw_line: string_of(l),
            },
        );
    }
    proof {
        lemma_panic_literals();
    }
    let last = match last_panicked_index(l) {
        Some(m) => m,
        None => {
            return None;
        },
    };
    match first_panic_opener(l, last) {
        Some((s, q)) => {
            let n = l.len();
            let mut message = String::from_str("Panic in ");
            append_range(&mut message, l, s + 8, q);
            message.append(": ");
            append_range(&mut message, l, last + 13, n);
            proof {
                assert(l@.skip(last + 13) =~= l@.subrange(last + 13, n as int));
            }
            Some(
                ParsedError {
                    file: None,
                    line: None,
                    column: None,
                    message,
                    error_type: ErrorType::Panic,
                    severity: Severity::Error,
                    raw_line: string_of(l),
                },
            )
        },
        None => None,
    }
}

proof fn lemma_first_opener(l: Seq<char>, s: int, q: int)
    requires
        panic_opener(l, s, q),
        forall|s2: int, q2: int| s2 < s ==> !#[trigger] panic_opener(l, s2, q2),
        forall|q2: int| q2 < q ==> !#[trigger] panic_opener(l, s, q2),
    ensures
        panic_capture(l) == Some(
            (l.subrange(s + "thread '"@.len(), q), l.skip(last_panicked_at(l) + " panicked at "@.len())),
        ),
{
    assert(panic_first_opener(l, s, q));
    let (s1, q1) = choose|s1: int, q1: int| panic_first_opener(l, s1, q1);
    assert(panic_first_opener(l, s1, q1));
    assert(s1 == s && q1 == q);
}

/// For a `thread '` at `s`, the first quote that can close the thread name.
fn thread_name_end(l: &Vec<char>, s: usize, last: usize) -> (r: Option<usize>)
    requires
        occurs_at(l@, s as int, "thread '"@),
        last_panicked_at(l@) == last,
        last < l@.len(),
    ensures
        match r {
            Some(q) => panic_opener(l@, s as int, q as int) && forall|q2: int|
                q2 < q ==> !#[trigger] panic_opener(l@, s as int, q2),
            None => forall|q2: int| !#[trigger] panic_opener(l@, s as int, q2),
        },
{
    proof {
        lemma_panic_literals();
    }
    let n = l.len();
    assert(s + 8 <= n);
    if s + 8 >= last {
        return None;
    }
    let mut q = s + 9;
    while q < last
        invariant
            s + 9 <= q <= last,
            last < n == l@.len(),
            "thread '"@.len() == 8,
            last_panicked_at(l@) == last,
            occurs_at(l@, s as int, "thread '"@),
            forall|q2: int| q2 < q ==> !#[trigger] panic_opener(l@, s as int, q2),
        decreases last - q,
    {
        if l[q] == '\'' {
            assert(panic_opener(l@, s as int, q as int));
            return Some(q);
        }
        q = q + 1;
    }
    None
}

/// The leftmost `thread '` with the shortest thread name that a
/// ` panicked at ` (the last one being at `last`) can follow.
fn first_panic_opener(l: &Vec<char>, last: usize) -> (r: Option<(usize, usize)>)
    requires
        panicked_at(l@, last as int),
        last_panicked_at(l@) == last,
    ensures
        match r {
            Some((s, q)) => {
                &&& s + 8 < q
                &&& q < last
                &&& panic_capture(l@) == Some(
                    (
                        l@.subrange(s + "thread '"@.len(), q as int),
                        l@.skip(last + " panicked at "@.len()),
                    ),
                )
            },
            None => panic_capture(l@) is None,
        },
{
    proof {
        lemma_panic_literals();
    }
    let n = l.len();
    let mut s: usize = 0;
    while s < n
        invariant
            n == l@.len(),
            s <= n,
            last < n,
            "thread '"@.len() == 8,
            last_panicked_at(l@) == last,
            forall|s2: int, q2: int| s2 < s ==> !#[trigger] panic_opener(l@, s2, q2),
        decreases n - s,
    {
        if has_at(l, s, "thread '") {
            if let Some(q) = thread_name_end(l, s, last) {
                proof {
                    lemma_first_opener(l@, s as int, q as int);
                    assert(s + 8 < q);
                    assert(q < last);
                }
                return Some((s, q));
            }
        } else {
            assert forall|q2: int| !#[trigger] panic_opener(l@, s as int, q2) by {}
        }
        s = s + 1;
    }
    proof {
        assert forall|s2: int, q2: int| !#[trigger] panic_opener(l@, s2, q2) by {
            if s2 >= n {
                assert(!occurs_at(l@, s2, "thread '"@));
            }
        }
    }
    None
}

proof fn lemma_ts_literals()
    ensures
        "): "@.len() == 3,
        "error "@.len() == 6,
        "warning "@.len() == 8,
        "TS"@.len() == 2,
        ": "@.len() == 2,
{
    reveal_strlit("): ");
    reveal_strlit("error ");
    reveal_strlit("warning ");
    reveal_strlit("TS");
    reveal_strlit(": ");
}

/// Whether the rest of the line from `p` on reads as a TypeScript
/// diagnostic; if so, where its parts end.
fn ts_tail_bounds(l: &Vec<char>, p: usize) -> (r: Option<(usize, usize, usize, usize)>)
    requires
        p <= l@.len(),
    ensures
        match r {
            Some((a, b, k, c)) => {
                &&& ts_tail(l@, p as int)
                &&& a == ts_line_end(l@, p as int)
                &&& b == ts_column_end(l@, p as int)
                &&& k == ts_code_start(l@, p as int)
                &&& c == ts_code_end(l@, p as int)
                &&& p < a < b < k < c <= l@.len()
            },
            None => !ts_tail(l@, p as int),
        },
{
    proof {
        lemma_ts_literals();
    }
    let n = l.len();
    if p == 0 || p >= n || l[p] != '(' {
        return None;
    }
    let a = span_of(l, p + 1, CharClass::Digit);
    if !(a > p + 1 && a < n && l[a] == ',') {
        return None;
    }
    let b = span_of(l, a + 1, CharClass::Digit);
    if !(b > a + 1 && has_at(l, b, "): ")) {
        return None;
    }
    let k0 = b + 3;
    let k = if has_at(l, k0, "error ") {
        k0 + 6
    } else if has_at(l, k0, "warning ") {
        k0 + 8
    } else {
        return None;
    };
    if !has_at(l, k, "TS") {
        return None;
    }
    let c = span_of(l, k + 2, CharClass::Digit);
    if c > k + 2 && has_at(l, c, ": ") && n > c + 2 {
        Some((a, b, k, c))
    } else {
        None
    }
}

proof fn lemma_first_ts(l: Seq<char>, p: int)
    requires
        ts_tail(l, p),
        forall|p2: int| 0 <= p2 < p ==> !ts_tail(l, p2),
    ensures
        typescript_capture(l) == Some(
            TsCapture {
                file: l.take(p),
                line: l.subrange(p + 1, ts_line_end(l, p)),
                column: l.subrange(ts_line_end(l, p) + 1, ts_column_end(l, p)),
                is_error: ts_is_error(l, p),
                code: l.subrange(ts_code_start(l, p), ts_code_end(l, p)),
                text: l.skip(ts_code_end(l, p) + ": "@.len()),
            },
        ),
{
    let p1 = choose|p1: int| ts_tail(l, p1) && forall|p2: int| 0 <= p2 < p1 ==> !ts_tail(l, p2);
    assert(ts_tail(l, p1) && forall|p2: int| 0 <= p2 < p1 ==> !ts_tail(l, p2));
    assert(p1 == p) by {
        if p1 < p {
            assert(!ts_tail(l, p1));
        }
        if p < p1 {
            assert(!ts_tail(l, p));
        }
    }
}

/// TypeScript compiler diagnostics.
fn try_parse_typescript_error(l: &Vec<char>) -> (r: Option<ParsedError>)
    ensures
        opt_model(r) == typescript_entry(l@),
{
    proof {
        lemma_ts_literals();
    }
    let n = l.len();
    let mut p: usize = 0;
    while p < n
        invariant
            n == l@.len(),
            p <= n,
            forall|p2: int| 0 <= p2 < p ==> !ts_tail(l@, p2),
        decreases n - p,
    {
        if let Some((a, b, k, c)) = ts_tail_bounds(l, p) {
            proof {
                lemma_first_ts(l@, p as int);
                lemma_ts_literals();
            }
            let is_error = has_at(l, b + 3, "error ");
            let mut message = string_of_range(l, k, c);
            message.append(": ");
            append_range(&mut message, l, c + 2, n);
            proof {
                assert(l@.skip(c + 2) =~= l@.subrange(c + 2, n as int));
                assert(l@.take(p as int) =~= l@.subrange(0, p as int));
            }
            return Some(
                ParsedError {
                    file: Some(string_of_range(l, 0, p)),
                    line: parse_digit_run(l, p + 1, a),
                    column: parse_digit_run(l, a + 1, b),
                    message,
                    error_type: ErrorType::TypeError,
                    severity: if is_error {
                        Severity::Error
                    } else {
                        Severity::Warning
                    },
                    raw_line: string_of(l),
                },
            );
        }
        p = p + 1;
    }
    proof {
        assert forall|p2: int| !ts_tail(l@, p2) by {
            if p2 >= n {
            }
        }
    }
    None
}

proof fn lemma_python_literals()
    ensures
        "File \""@.len() == 6,
        "\", line "@.len() == 8,
        "ImportError: "@.len() == 13,
        "ModuleError: "@.len() == 13,
        "Error"@.len() == 5,
        ": "@.len() == 2,
{
    reveal_strlit("File \"");
    reveal_strlit("\", line ");
    reveal_strlit("ImportError: ");
    reveal_strlit("ModuleError: ");
    reveal_strlit("Error");
    reveal_strlit(": ");
}

proof fn lemma_first_py_file(l: Seq<char>, q: int)
    requires
        py_file_end(l, q),
        forall|q2: int| 0 <= q2 < q ==> !py_file_end(l, q2),
    ensures
        python_file_capture(l) == Some(
            (
                l.subrange(py_file_start(l), q),
                l.subrange(q + "\", line "@.len(), span(l, q + "\", line "@.len(), CharClass::Digit)),
            ),
        ),
{
    let q1 = choose|q1: int| py_file_end(l, q1) && forall|q2: int| 0 <= q2 < q1 ==> !py_file_end(l, q2);
    assert(py_file_end(l, q1) && forall|q2: int| 0 <= q2 < q1 ==> !py_file_end(l, q2));
    assert(q1 == q) by {
        if q1 < q {
            assert(!py_file_end(l, q1));
        }
        if q < q1 {
            assert(!py_file_end(l, q));
        }
    }
}

/// The bounds `(f, q, e)` of a traceback location: the file is `l[f..q]`,
/// the line digits `l[q + 8..e]`.
fn python_file_bounds(l: &Vec<char>) -> (r: Option<(usize, usize, usize)>)
    ensures
        match r {
            Some((f, q, e)) => f <= q && q + 8 < e <= l@.len() && python_file_capture(l@) == Some(
                (l@.subrange(f as int, q as int), l@.subrange(q + 8, e as int)),
            ),
            None => python_file_capture(l@) is None,
        },
{
    proof {
        lemma_python_literals();
    }
    let n = l.len();
    let a = span_of(l, 0, CharClass::Space);
    if !has_at(l, a, "File \"") {
        assert forall|q2: int| !py_file_end(l@, q2) by {}
        return None;
    }
    let f = a + 6;
    let mut q = f;
    while q < n
        invariant
            n == l@.len(),
            f <= q,
            f == py_file_start(l@),
            occurs_at(l@, span(l@, 0, CharClass::Space), "File \""@),
            "\", line "@.len() == 8,
            forall|q2: int| 0 <= q2 < q ==> !py_file_end(l@, q2),
        decreases n - q,
    {
        if q > f && has_at(l, q, "\", line ") && q + 8 < n && char_in_class(
            CharClass::Digit,
            l[q + 8],
        ) {
            proof {
                assert(py_file_end(l@, q as int));
                lemma_first_py_file(l@, q as int);
            }
            let e = span_of(l, q + 8, CharClass::Digit);
            proof {
                lemma_span(l@, q + 9, CharClass::Digit);
                assert(e == span(l@, q + 9, CharClass::Digit));
            }
            return Some((f, q, e));
        }
        q = q + 1;
    }
    assert forall|q2: int| !py_file_end(l@, q2) by {
        if q2 >= q {
        }
    }
    None
}

/// Python traceback locations, import errors and exceptions.
fn try_parse_python_error(l: &Vec<char>) -> (r: Option<ParsedError>)
    ensures
        opt_model(r) == python_entry(l@),
{
    proof {
        lemma_python_literals();
    }
    let n = l.len();
    if let Some((f, q, e)) = python_file_bounds(l) {
        return Some(
            ParsedError {
                file: Some(string_of_range(l, f, q)),
                line: parse_digit_run(l, q + 8, e),
                column: None,
                message: String::new(),
                error_type: ErrorType::CompileError,
                severity: Severity::Info,
                raw_line: string_of(l),
            },
        );
    }
    if (has_at(l, 0, "ImportError: ") || has_at(l, 0, "ModuleError: ")) && n > 13 {
        proof {
            assert(l@.skip(13) =~= l@.subrange(13, n as int));
        }
        return Some(
            ParsedError {
                file: None,
                line: None,
                column: None,
                message: string_of_range(l, 13, n),
                error_type: ErrorType::ImportError,
                severity: Severity::Error,
                raw_line: string_of(l),
            },
        );
    }
    let w = span_of(l, 0, CharClass::Word);
    if w > 5 && has_at(l, w - 5, "Error") && has_at(l, w, ": ") && n > w + 2 {
        let mut message = string_of_range(l, 0, w);
        message.append(": ");
        append_range(&mut message, l, w + 2, n);
        proof {
            assert(l@.skip(w + 2) =~= l@.subrange(w + 2, n as int));
            assert(l@.take(w as int) =~= l@.subrange(0, w as int));
        }
        return Some(
            ParsedError {
                file: None,
                line: None,
                column: None,
                message,
                error_type: ErrorType::CompileError,
                severity: Severity::Error,
                raw_line: string_of(l),
            },
        );
    }
    None
}

proof fn lemma_go_literals()
    ensures
        ".go"@.len() == 3,
        ": "@.len() == 2,
{
    reveal_strlit(".go");
    reveal_strlit(": ");
}

/// Whether a Go file name ends at `p`; if so, where the line digits and the
/// column digits end.
fn go_tail_bounds(l: &Vec<char>, p: usize) -> (r: Option<(usize, usize)>)
    requires
        p <= l@.len(),
    ensures
        match r {
            Some((a, b)) => {
                &&& go_tail(l@, p as int)
                &&& a == span(l@, p + 1, CharClass::Digit)
                &&& b == span(l@, a + 1, CharClass::Digit)
                &&& p < a < b < l@.len()
            },
            None => !go_tail(l@, p as int),
        },
{
    proof {
        lemma_go_literals();
    }
    let n = l.len();
    if p <= 3 || p >= n || l[p] != ':' || !has_at(l, p - 3, ".go") {
        return None;
    }
    let a = span_of(l, p + 1, CharClass::Digit);
    if !(a > p + 1 && a < n && l[a] == ':') {
        return None;
    }
    let b = span_of(l, a + 1, CharClass::Digit);
    if b > a + 1 && has_at(l, b, ": ") && n > b + 2 {
        Some((a, b))
    } else {
        None
    }
}

proof fn lemma_first_go(l: Seq<char>, p: int)
    requires
        go_tail(l, p),
        forall|p2: int| 0 <= p2 < p ==> !go_tail(l, p2),
    ensures
        go_capture(l) == Some(
            (
                l.take(p),
                l.subrange(p + 1, span(l, p + 1, CharClass::Digit)),
                l.subrange(
                    span(l, p + 1, CharClass::Digit) + 1,
                    span(l, span(l, p + 1, CharClass::Digit) + 1, CharClass::Digit),
                ),
                l.skip(span(l, span(l, p + 1, CharClass::Digit) + 1, CharClass::Digit) + ": "@.len()),
            ),
        ),
{
    let p1 = choose|p1: int| go_tail(l, p1) && forall|p2: int| 0 <= p2 < p1 ==> !go_tail(l, p2);
    assert(go_tail(l, p1) && forall|p2: int| 0 <= p2 < p1 ==> !go_tail(l, p2));
    assert(p1 == p) by {
        if p1 < p {
            assert(!go_tail(l, p1));
        }
        if p < p1 {
            assert(!go_tail(l, p));
        }
    }
}

/// Go compiler errors.
fn try_parse_go_error(l: &Vec<char>) -> (r: Option<ParsedError>)
    ensures
        opt_model(r) == go_entry(l@),
{
    proof {
        lemma_go_literals();
    }
    let n = l.len();
    let mut p: usize = 0;
    while p < n
        invariant
            n == l@.len(),
            p <= n,
            ": "@.len() == 2,
            forall|p2: int| 0 <= p2 < p ==> !go_tail(l@, p2),
        decreases n - p,
    {
        if let Some((a, b)) = go_tail_bounds(l, p) {
            proof {
                lemma_first_go(l@, p as int);
                assert(l@.skip(b + 2) =~= l@.subrange(b + 2, n as int));
                assert(l@.take(p as int) =~= l@.subrange(0, p as int));
            }
            return Some(
                ParsedError {
                    file: Some(string_of_range(l, 0, p)),
                    line: parse_digit_run(l, p + 1, a),
                    column: parse_digit_run(l, a + 1, b),
                    message: string_of_range(l, b + 2, n),
                    error_type: ErrorType::CompileError,
                    severity: Severity::Error,
                    raw_line: string_of(l),
                },
            );
        }
        p = p + 1;
    }
    proof {
        assert forall|p2: int| !go_tail(l@, p2) by {
            if p2 >= n {
            }
        }
    }
    None
}

/// The entry for a generic error line, given the line and its lowercase
/// form: a line whose lowercase form holds `error:` or `fatal:` is an error
/// of unknown kind whose message is the trimmed line.
pub fn generic_error_from_lowercase(line: &str, lower: &str) -> (r: Option<ParsedError>)
    ensures
        opt_model(r) == generic_entry(line@, lower@),
{
    let lw = chars_of(lower);
    if contains_lit(&lw, "error:") || contains_lit(&lw, "fatal:") {
        let l = chars_of(line);
        let (a, b) = trim_bounds(&l);
        Some(
            ParsedError {
                file: None,
                line: None,
                column: None,
                message: string_of_range(&l, a, b),
                error_type: ErrorType::Unknown,
                severity: Severity::Error,
                raw_line: String::from_str(line),
            },
        )
    } else {
        None
    }
}

/// Lines that mention `error:` or `fatal:` in any letter case.
fn try_parse_generic_error(l: &Vec<char>) -> (r: Option<ParsedError>)
    ensures
        opt_model(r) == generic_entry(l@, lowercase(l@)),
        all_space(l@) ==> r is None,
{
    let raw = string_of(l);
    let lower = to_lowercase(raw.as_str());
    proof {
        if all_space(l@) {
            reveal_strlit("error:");
            reveal_strlit("fatal:");
            lemma_space_lacks(lower@, "error:"@, 0);
            lemma_space_lacks(lower@, "fatal:"@, 0);
        }
    }
    generic_error_from_lowercase(raw.as_str(), lower.as_str())
}

/// The entry for one line, trying each family of tools in turn.
pub fn parse_line(l: &Vec<char>) -> (r: Option<ParsedError>)
    ensures
        opt_model(r) == line_entry(l@),
{
    if let Some(e) = try_parse_rust_error(l) {
        Some(e)
    } else if let Some(e) = try_parse_rust_test_failure(l) {
        Some(e)
    } else if let Some(e) = try_parse_typescript_error(l) {
        Some(e)
    } else if let Some(e) = try_parse_python_error(l) {
        Some(e)
    } else if let Some(e) = try_parse_go_error(l) {
        Some(e)
    } else {
        try_parse_generic_error(l)
    }
}

/// Parse raw build/test output into structured errors: one entry for each
/// line that some family of tools recognises, in the order of the lines.
pub fn parse_errors(output: &str) -> (r: Vec<ParsedError>)
    ensures
        models(r@) == parsed_output(output@),
{
    let v = chars_of(output);
    let n = v.len();
    let mut errors: Vec<ParsedError> = Vec::new();
    let ghost done: Seq<Seq<char>> = Seq::empty();
    let mut i: usize = 0;
    assert(lines(v@) =~= done + lines_from(v@, 0));
    while i < n
        invariant
            n == v@.len(),
            i <= n,
            lines(v@) == done + lines_from(v@, i as int),
            models(errors@) == line_entries(done),
        decreases n - i,
    {
        let (end, next) = line_bounds(&v, i);
        let line = vec_range(&v, i, end);
        let ghost before = errors@;
        proof {
            assert(done + lines_from(v@, i as int) =~= done.push(line@) + lines_from(v@, next as int));
            assert(done.push(line@).drop_last() =~= done);
        }
        match parse_line(&line) {
            Some(e) => {
                errors.push(e);
                assert(models(errors@) =~= models(before).push(e@));
            },
            None => {},
        }
        proof {
            done = done.push(line@);
        }
        i = next;
    }
    assert(lines_from(v@, n as int) =~= Seq::<Seq<char>>::empty());
    assert(done + lines_from(v@, n as int) =~= done);
    errors
}

// ---------------------------------------------------------------------------
// Laws
// ---------------------------------------------------------------------------

/// An entry is informational exactly when it has no message, and then it
/// is a location marker: a compile error with a file.
pub open spec fn marks_location_only_when_informational(e: ErrorModel) -> bool {
    &&& (e.severity == Severity::Info <==> e.message.len() == 0)
    &&& e.severity == Severity::Info ==> e.file is Some && e.error_type == ErrorType::CompileError
}

/// An entry made from a line keeps that line as its raw line, and is
/// informational exactly when it is a location marker with no message.
pub proof fn lemma_line_entry(l: Seq<char>)
    ensures
        line_entry(l) matches Some(e) ==> {
            &&& e.raw_line == l
            &&& marks_location_only_when_informational(e)
        },
{
    lemma_rust_entry_marks(l);
    lemma_rust_test_entry_marks(l);
    lemma_typescript_entry_marks(l);
    lemma_python_entry_marks(l);
    lemma_go_entry_marks(l);
    if !all_space(l) {
        lemma_trim_empty(l);
    }
}

proof fn lemma_rust_entry_marks(l: Seq<char>)
    ensures
        rust_entry(l) matches Some(e) ==> e.raw_line == l && marks_location_only_when_informational(e),
{
}

proof fn lemma_rust_test_entry_marks(l: Seq<char>)
    ensures
        rust_test_entry(l) matches Some(e) ==> e.raw_line == l && marks_location_only_when_informational(e),
{
    reveal_strlit("Test failed: ");
    reveal_strlit("Panic in ");
}

proof fn lemma_least_ts(l: Seq<char>, p: int)
    requires
        ts_tail(l, p),
    ensures
        exists|p1: int| ts_tail(l, p1) && forall|p2: int| 0 <= p2 < p1 ==> !ts_tail(l, p2),
    decreases p,
{
    if exists|p2: int| 0 <= p2 < p && ts_tail(l, p2) {
        let p2 = choose|p2: int| 0 <= p2 < p && ts_tail(l, p2);
        lemma_least_ts(l, p2);
    } else {
        assert(ts_tail(l, p) && forall|p2: int| 0 <= p2 < p ==> !ts_tail(l, p2));
    }
}

proof fn lemma_typescript_entry_marks(l: Seq<char>)
    ensures
        typescript_entry(l) matches Some(e) ==> e.raw_line == l && marks_location_only_when_informational(e),
{
    if exists|p: int| ts_tail(l, p) {
        let p0 = choose|p: int| ts_tail(l, p);
        lemma_least_ts(l, p0);
        let p = choose|p: int| ts_tail(l, p) && forall|p2: int| 0 <= p2 < p ==> !ts_tail(l, p2);
        assert(ts_tail(l, p));
        let c = typescript_capture(l).unwrap();
        assert(c.text == l.skip(ts_code_end(l, p) + ": "@.len()));
        assert(c.text.len() > 0);
        assert((c.code + ": "@ + c.text).len() > 0);
    }
}

proof fn lemma_python_entry_marks(l: Seq<char>)
    ensures
        python_entry(l) matches Some(e) ==> e.raw_line == l && marks_location_only_when_informational(e),
{
}

proof fn lemma_least_go(l: Seq<char>, p: int)
    requires
        go_tail(l, p),
    ensures
        exists|p1: int| go_tail(l, p1) && forall|p2: int| 0 <= p2 < p1 ==> !go_tail(l, p2),
    decreases p,
{
    if exists|p2: int| 0 <= p2 < p && go_tail(l, p2) {
        let p2 = choose|p2: int| 0 <= p2 < p && go_tail(l, p2);
        lemma_least_go(l, p2);
    } else {
        assert(go_tail(l, p) && forall|p2: int| 0 <= p2 < p ==> !go_tail(l, p2));
    }
}

proof fn lemma_go_entry_marks(l: Seq<char>)
    ensures
        go_entry(l) matches Some(e) ==> e.raw_line == l && marks_location_only_when_informational(e),
{
    if exists|p: int| go_tail(l, p) {
        let p0 = choose|p: int| go_tail(l, p);
        lemma_least_go(l, p0);
        let p = choose|p: int| go_tail(l, p) && forall|p2: int| 0 <= p2 < p ==> !go_tail(l, p2);
        assert(go_tail(l, p));
        let a = span(l, p + 1, CharClass::Digit);
        let b = span(l, a + 1, CharClass::Digit);
        let (f, d1, d2, m) = go_capture(l).unwrap();
        assert(m == l.skip(b + ": "@.len()));
        assert(m.len() > 0);
    }
}

/// Every entry of parsed output comes from one of its lines, in order, at
/// most one per line; it is informational exactly when it has no message,
/// and then it is a location marker with a file.
pub proof fn lemma_parsed_output(output: Seq<char>)
    ensures
        parsed_output(output).len() <= lines(output).len(),
        forall|k: int|
            0 <= k < parsed_output(output).len() ==> lines(output).contains(
                (#[trigger] parsed_output(output)[k]).raw_line,
            ),
        forall|k: int|
            0 <= k < parsed_output(output).len() ==> marks_location_only_when_informational(
                #[trigger] parsed_output(output)[k],
            ),
{
    lemma_line_entries(lines(output));
}

proof fn lemma_line_entries(ls: Seq<Seq<char>>)
    ensures
        line_entries(ls).len() <= ls.len(),
        forall|k: int|
            0 <= k < line_entries(ls).len() ==> ls.contains((#[trigger] line_entries(ls)[k]).raw_line),
        forall|k: int|
            0 <= k < line_entries(ls).len() ==> marks_location_only_when_informational(
                #[trigger] line_entries(ls)[k],
            ),
    decreases ls.len(),
{
    if ls.len() > 0 {
        let d = ls.drop_last();
        lemma_line_entries(d);
        lemma_line_entry(ls.last());
        let r = line_entries(ls);
        let rd = line_entries(d);
        assert forall|k: int| 0 <= k < r.len() implies ls.contains((#[trigger] r[k]).raw_line) by {
            if k < rd.len() {
                assert(r[k] == rd[k]);
                let j = choose|j: int| 0 <= j < d.len() && d[j] == rd[k].raw_line;
                assert(ls[j] == d[j]);
            } else {
                assert(ls[ls.len() - 1] == ls.last());
            }
        }
        assert forall|k: int| 0 <= k < r.len() implies marks_location_only_when_informational(
            #[trigger] r[k],
        ) by {
            if k < rd.len() {
                assert(r[k] == rd[k]);
            }
        }
    }
}

/// Lines are read one at a time: the entries of two runs of lines are the
/// entries of the first followed by those of the second.
pub proof fn lemma_line_entries_append(x: Seq<Seq<char>>, y: Seq<Seq<char>>)
    ensures
        line_entries(x + y) == line_entries(x) + line_entries(y),
    decreases y.len(),
{
    if y.len() == 0 {
        assert(x + y =~= x);
        assert(line_entries(x) + line_entries(y) =~= line_entries(x));
    } else {
        lemma_line_entries_append(x, y.drop_last());
        assert((x + y).drop_last() =~= x + y.drop_last());
        assert((x + y).last() == y.last());
        match line_entry(y.last()) {
            Some(e) => {
                assert(line_entries(x) + line_entries(y) =~= (line_entries(x) + line_entries(
                    y.drop_last(),
                )).push(e));
            },
            None => {},
        }
    }
}

/// An empty line names nothing.
pub proof fn lemma_empty_line(l: Seq<char>)
    requires
        l.len() == 0,
    ensures
        line_entry(l) is None,
{
    assert(all_space(l));
    assert(!(exists|s: int, q: int| panic_opener(l, s, q)));
    assert(!(exists|p: int| ts_tail(l, p)));
    assert(!(exists|q: int| py_file_end(l, q)));
    assert(!(exists|p: int| go_tail(l, p)));
}

/// Output is parsed line by line: two texts joined with a line feed give
/// the entries of the first followed by those of the second, unless the
/// first ends in a carriage return (which the line feed would strip).
pub proof fn lemma_parsed_output_join(a: Seq<char>, b: Seq<char>)
    requires
        a.len() == 0 || a.last() != '\r',
    ensures
        parsed_output(a + seq!['\n'] + b) == parsed_output(a) + parsed_output(b),
{
    lemma_lines_join(a, b);
    let x = lines(a);
    let y = blank_line_between(a);
    let z = lines(b);
    lemma_line_entries_append(x + y, z);
    lemma_line_entries_append(x, y);
    if y.len() > 0 {
        assert(y.len() == 1);
        assert(y.last() == y[0]);
        lemma_empty_line(y[0]);
        assert(line_entry(y.last()) is None);
        assert(y.drop_last() =~= Seq::<Seq<char>>::empty());
        assert(line_entries(y.drop_last()) =~= Seq::<ErrorModel>::empty());
        assert(line_entries(y) =~= Seq::<ErrorModel>::empty());
    } else {
        assert(line_entries(y) =~= Seq::<ErrorModel>::empty());
    }
    assert(line_entries(x) + line_entries(y) =~= line_entries(x));
}

/// A TypeScript diagnostic whose file ends at `p` (the shortest file that
/// lets the line read as a diagnostic) is a type error from that file; its
/// severity is Error when the level word after `): ` is `error`, and
/// Warning when it is `warning`.
pub proof fn lemma_typescript_severity(l: Seq<char>, p: int)
    requires
        ts_tail(l, p),
        forall|p2: int| 0 <= p2 < p ==> !ts_tail(l, p2),
    ensures
        typescript_entry(l) is Some,
        typescript_entry(l).unwrap().error_type == ErrorType::TypeError,
        typescript_entry(l).unwrap().file == Some(l.take(p)),
        l.subrange(ts_column_end(l, p), ts_column_end(l, p) + 9) == "): error "@
            ==> typescript_entry(l).unwrap().severity == Severity::Error,
        l.subrange(ts_column_end(l, p), ts_column_end(l, p) + 11) == "): warning "@
            ==> typescript_entry(l).unwrap().severity == Severity::Warning,
{
    lemma_first_ts(l, p);
    lemma_ts_literals();
    reveal_strlit("): error ");
    reveal_strlit("): warning ");
    reveal_strlit("error ");
    reveal_strlit("warning ");
    let b = ts_column_end(l, p);
    if l.subrange(b, b + 9) == "): error "@ {
        assert(l.subrange(b + 3, b + 9) =~= "error "@) by {
            assert forall|k: int| 0 <= k < 6 implies l.subrange(b + 3, b + 9)[k] == "error "@[k] by {
                assert(l.subrange(b + 3, b + 9)[k] == l.subrange(b, b + 9)[k + 3]);
            }
        }
        assert(ts_is_error(l, p));
    }
    if l.subrange(b, b + 11) == "): warning "@ {
        assert(l.subrange(b + 3, b + 9)[0] == 'w') by {
            assert(l.subrange(b + 3, b + 9)[0] == l.subrange(b, b + 11)[3]);
        }
        assert(!ts_is_error(l, p)) by {
            if ts_is_error(l, p) {
                assert(l.subrange(b + 3, b + 9) == "error "@);
            }
        }
    }
}

/// A line `error: <message>` is a Rust compiler error with that message:
/// an import error when the message mentions `unresolved import` or
/// `could not find`, else a type error when it mentions `mismatched types`
/// or `expected`, else an import error for `cannot find` or `not found in
/// scope`, else a link error for `linking with`, else a compile error.
pub proof fn lemma_rust_error_line(m: Seq<char>)
    requires
        m.len() > 0,
    ensures
        line_entry("error: "@ + m) == Some(
            model_of(
                None,
                None,
                None,
                m,
                if contains_seq(m, "unresolved import"@) || contains_seq(m, "could not find"@) {
                    ErrorType::ImportError
                } else if contains_seq(m, "mismatched types"@) || contains_seq(m, "expected"@) {
                    ErrorType::TypeError
                } else if contains_seq(m, "cannot find"@) || contains_seq(m, "not found in scope"@) {
                    ErrorType::ImportError
                } else if contains_seq(m, "linking with"@) {
                    ErrorType::LinkError
                } else {
                    ErrorType::CompileError
                },
                Severity::Error,
                "error: "@ + m,
            ),
        ),
{
    let l = "error: "@ + m;
    reveal_strlit("error: ");
    assert(l.subrange(0, 7) =~= "error: "@);
    assert(l.skip(7) =~= m);
}

/// A line `warning: <message>` is a warning with that message.
pub proof fn lemma_rust_warning_line(m: Seq<char>)
    requires
        m.len() > 0,
    ensures
        line_entry("warning: "@ + m) == Some(
            model_of(None, None, None, m, ErrorType::Warning, Severity::Warning, "warning: "@ + m),
        ),
{
    let l = "warning: "@ + m;
    reveal_strlit("warning: ");
    reveal_strlit("error: ");
    reveal_strlit("error[E");
    assert(l[0] == 'w');
    assert(l.subrange(0, 7)[0] == 'w');
    assert(!occurs_at(l, 0, "error: "@));
    assert(!occurs_at(l, 0, "error[E"@));
    assert(span(l, 0, CharClass::Space) == 0);
    assert(l.subrange(0, 9) =~= "warning: "@);
    assert(l.skip(9) =~= m);
}

/// A line `test <name> ... FAILED` is a test failure, an error, with the
/// message `Test failed: <name>`.
pub proof fn lemma_test_failure_line(name: Seq<char>)
    requires
        name.len() > 0,
    ensures
        line_entry("test "@ + name + " ... FAILED"@) == Some(
            model_of(
                None,
                None,
                None,
                "Test failed: "@ + name,
                ErrorType::TestFailure,
                Severity::Error,
                "test "@ + name + " ... FAILED"@,
            ),
        ),
{
    let l = "test "@ + name + " ... FAILED"@;
    reveal_strlit("test ");
    reveal_strlit(" ... FAILED");
    reveal_strlit("error: ");
    reveal_strlit("error[E");
    reveal_strlit("warning: ");
    reveal_strlit("warning[");
    assert(l[0] == 't');
    assert(!occurs_at(l, 0, "error: "@)) by {
        assert(l.subrange(0, 7)[0] == 't');
    }
    assert(!occurs_at(l, 0, "error[E"@)) by {
        assert(l.subrange(0, 7)[0] == 't');
    }
    assert(!occurs_at(l, 0, "warning: "@)) by {
        if l.len() >= 9 {
            assert(l.subrange(0, 9)[0] == 't');
        }
    }
    assert(!occurs_at(l, 0, "warning["@)) by {
        if l.len() >= 8 {
            assert(l.subrange(0, 8)[0] == 't');
        }
    }
    assert(span(l, 0, CharClass::Space) == 0);
    assert(rust_entry(l) is None);
    assert(l.subrange(0, 5) =~= "test "@);
    assert(l.subrange(l.len() - 11, l.len() as int) =~= " ... FAILED"@);
    assert(l.subrange(5, l.len() - 11) =~= name);
}

} // verus!

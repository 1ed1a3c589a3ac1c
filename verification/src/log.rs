//! Crash reports made from the logs that a fuzzer saved.
use vstd::prelude::*;

use crate::parsers;
use crate::parsers::Parser;
use crate::report;
use crate::report::ReportView;
use crate::text;

verus! {

/// The lines of a text, which newlines separate.
pub open spec fn lines(s: Seq<char>) -> Seq<Seq<char>>
    decreases s.len(),
{
    if s.len() == 0 {
        seq![s]
    } else if s.last() == '\n' {
        lines(s.drop_last()).push(Seq::empty())
    } else {
        let before = lines(s.drop_last());
        before.drop_last().push(before.last().push(s.last()))
    }
}

/// The index of the first line, not before `from`, that satisfies `wanted`.
pub open spec fn first_line(
    lines: Seq<Seq<char>>,
    from: int,
    wanted: spec_fn(Seq<char>) -> bool,
) -> Option<int>
    decreases lines.len() - from,
{
    if from >= lines.len() {
        None
    } else if wanted(lines[from]) {
        Some(from)
    } else {
        first_line(lines, from + 1, wanted)
    }
}

/// The lines of the stack trace in a sanitizer's log: from the first line that holds frame zero up
/// to the next empty line. There is none if either line is missing.
pub open spec fn logged_trace(log: Seq<char>) -> Option<Seq<Seq<char>>> {
    match first_line(lines(log), 0, |line: Seq<char>| text::occurs_in(line, " #0 "@)) {
        None => None,
        Some(start) => match first_line(lines(log), start, |line: Seq<char>| line.len() == 0) {
            None => None,
            Some(end) => Some(lines(log).subrange(start, end)),
        },
    }
}

/// The lines of the stack trace in a sanitizer's log, which `extract_stacktrace` of
/// `libcasr::asan::AsanStacktrace` finds: those from the first line with ` #0 ` in it up to the
/// next empty line; an error if there is no such line, or no empty line after it.
#[verifier::external_body]
fn extract_stacktrace(log: &str) -> (r: Result<Vec<String>, libcasr::error::Error>)
    ensures
        match r {
            Ok(trace) => logged_trace(log@) == Some(text::texts(trace@)),
            Err(_) => logged_trace(log@) is None,
        },
{
    <libcasr::asan::AsanStacktrace as libcasr::stacktrace::ParseStacktrace>::extract_stacktrace(log)
}

/// The report of a crash of which only the stack trace, and that a sanitizer wrote it, is known.
pub open spec fn bare_report(stacktrace: Seq<Seq<char>>, asan_report: Seq<Seq<char>>) -> ReportView {
    ReportView {
        stacktrace,
        asan_report,
        msan_report: Seq::empty(),
        python_report: Seq::empty(),
        java_report: Seq::empty(),
        go_report: Seq::empty(),
        rust_report: Seq::empty(),
        js_report: Seq::empty(),
        csharp_report: Seq::empty(),
        lua_report: Seq::empty(),
        proc_maps: Seq::empty(),
        crashline: Seq::empty(),
    }
}

/// The JSON text in pretty layout that `serde_json::to_string_pretty` writes for a
/// `libcasr::report::CrashReport` with this date and these lines, whose other fields are those of a
/// new report.
pub uninterp spec fn new_report_json(
    date: Seq<char>,
    stacktrace: Seq<Seq<char>>,
    asan_report: Seq<Seq<char>>,
) -> Seq<char>;

/// The date of a new report, from `libcasr::report::CrashReport::new`. It is the current time, so
/// nothing is said of it.
#[verifier::external_body]
fn new_report_date() -> (date: String) {
    libcasr::report::CrashReport::new().date
}

/// The JSON text, from `serde_json::to_string_pretty`, of a report with this date and these lines,
/// whose other fields have the default values that `libcasr::report::CrashReport::new` gives them. It
/// is named by [`new_report_json`].
///
/// The report holds texts, lists of texts and empty maps, so it can always be written, and reading
/// the JSON text gives its fields back.
#[verifier::external_body]
fn report_json(date: String, stacktrace: Vec<String>, asan_report: Vec<String>) -> (r: Result<
    String,
    serde_json::Error,
>)
    ensures
        r is Ok,
        r->Ok_0@ == new_report_json(
            date@,
            text::texts(stacktrace@),
            text::texts(asan_report@),
        ),
        report::report_of_json(vstd::utf8::encode_utf8(r->Ok_0@)) == Some(
            bare_report(text::texts(stacktrace@), text::texts(asan_report@)),
        ),
{
    let report = libcasr::report::CrashReport {
        date,
        stacktrace,
        asan_report,
        ..Default::default()
    };
    serde_json::to_string_pretty(&report)
}

/// An error of `std::io`.
#[verifier::external_type_specification]
#[verifier::external_body]
pub struct ExIoError(std::io::Error);

/// The log of a crash, as far as it could be read.
#[derive(Debug)]
pub enum LogFile {
    /// There is no such file.
    Missing,
    /// The file cannot be read.
    Unreadable(std::io::Error),
    /// The text in the file.
    Content(String),
}

/// Why no report can be made from a log.
#[derive(Debug)]
pub enum LogError {
    /// There is no log.
    NotFound,
    /// The log cannot be read.
    Unreadable(std::io::Error),
    /// The log is empty.
    Empty,
    /// The stack trace cannot be extracted.
    NotExtracted(libcasr::error::Error),
    /// The stack trace has no lines.
    NoStacktrace,
    /// The report cannot be written as JSON.
    NotSerialized(serde_json::Error),
}

impl LogError {
    /// What went wrong, before the path of the log.
    pub open spec fn complaint(self) -> Seq<char> {
        match self {
            LogError::NotFound => "Log file not found: "@,
            LogError::Unreadable(_) => "Failed to read log: "@,
            LogError::Empty => "Log file is empty: "@,
            LogError::NotExtracted(_) => "Failed to extract stacktrace from "@,
            LogError::NoStacktrace => "No stacktrace found in log: "@,
            LogError::NotSerialized(_) => "Failed to serialize the report of "@,
        }
    }

    /// What is said of the log at `log_path`.
    pub fn message(&self, log_path: &str) -> (r: String)
        ensures
            r@ == self.complaint() + log_path@,
    {
        let complaint = match self {
            LogError::NotFound => "Log file not found: ",
            LogError::Unreadable(_) => "Failed to read log: ",
            LogError::Empty => "Log file is empty: ",
            LogError::NotExtracted(_) => "Failed to extract stacktrace from ",
            LogError::NoStacktrace => "No stacktrace found in log: ",
            LogError::NotSerialized(_) => "Failed to serialize the report of ",
        };
        let mut r = complaint.to_owned();
        r.append(log_path);
        r
    }
}

/// The line that marks a report as one of a sanitizer.
pub open spec fn log_marker() -> Seq<char> {
    "ASAN (from log)"@
}

/// `json` is the report with these lines of a stack trace, of some date: a new report but for the
/// lines and the mark, which reads back as such.
pub open spec fn is_log_report(json: Seq<char>, trace: Seq<Seq<char>>) -> bool {
    &&& exists|date: Seq<char>| json == #[trigger] new_report_json(date, trace, seq![log_marker()])
    &&& report::report_of_json(vstd::utf8::encode_utf8(json)) == Some(
        bare_report(trace, seq![log_marker()]),
    )
}

/// The JSON text of the report that the outcome of an extraction gives, with this date. The error of
/// the extraction is kept.
pub fn report_from_extracted(
    extracted: Result<Vec<String>, libcasr::error::Error>,
    date: String,
) -> (r: Result<String, LogError>)
    ensures
        match extracted {
            Err(error) => r == Err::<String, LogError>(LogError::NotExtracted(error)),
            Ok(trace) => if trace@.len() == 0 {
                r == Err::<String, LogError>(LogError::NoStacktrace)
            } else {
                r is Ok && r->Ok_0@ == new_report_json(
                    date@,
                    text::texts(trace@),
                    seq![log_marker()],
                ) && is_log_report(r->Ok_0@, text::texts(trace@))
            },
        },
{
    let trace = match extracted {
        Ok(trace) => trace,
        Err(error) => {
            return Err(LogError::NotExtracted(error));
        },
    };
    if trace.len() == 0 {
        return Err(LogError::NoStacktrace);
    }
    let mut marks: Vec<String> = Vec::new();
    marks.push("ASAN (from log)".to_owned());
    assert(text::texts(marks@) == seq![log_marker()]);
    match report_json(date, trace, marks) {
        Ok(json) => Ok(json),
        Err(error) => Err(LogError::NotSerialized(error)),
    }
}

/// The JSON text of the report that the log of a crash gives. The crash is not run again.
pub fn report_from_log(log: LogFile) -> (r: Result<String, LogError>)
    ensures
        match log {
            LogFile::Missing => r == Err::<String, LogError>(LogError::NotFound),
            LogFile::Unreadable(error) => r == Err::<String, LogError>(LogError::Unreadable(error)),
            LogFile::Content(content) => if content@.len() == 0 {
                r == Err::<String, LogError>(LogError::Empty)
            } else {
                match logged_trace(content@) {
                    None => r matches Err(LogError::NotExtracted(_)),
                    Some(trace) => r is Ok && is_log_report(r->Ok_0@, trace),
                }
            },
        },
{
    match log {
        LogFile::Missing => Err(LogError::NotFound),
        LogFile::Unreadable(error) => Err(LogError::Unreadable(error)),
        LogFile::Content(content) => {
            if content.as_str().is_empty() {
                return Err(LogError::Empty);
            }
            proof {
                if logged_trace(content@) is Some {
                    law_logged_trace_starts_with_frame_zero(content@);
                }
            }
            let extracted = extract_stacktrace(content.as_str());
            report_from_extracted(extracted, new_report_date())
        },
    }
}

proof fn lemma_first_line(
    lines: Seq<Seq<char>>,
    from: int,
    wanted: spec_fn(Seq<char>) -> bool,
)
    requires
        0 <= from,
    ensures
        first_line(lines, from, wanted) matches Some(i) ==> from <= i < lines.len() && wanted(
            lines[i],
        ),
        forall|k: int|
            from <= k < (match first_line(lines, from, wanted) {
                Some(i) => i,
                None => lines.len() as int,
            }) ==> !wanted(#[trigger] lines[k]),
    decreases lines.len() - from,
{
    if from < lines.len() && !wanted(lines[from]) {
        lemma_first_line(lines, from + 1, wanted);
    }
}

/// The stack trace in a log has a line, its first line holds frame zero, and none of its lines is
/// empty.
pub proof fn law_logged_trace_starts_with_frame_zero(log: Seq<char>)
    requires
        logged_trace(log) is Some,
    ensures
        logged_trace(log)->0.len() > 0,
        text::occurs_in(logged_trace(log)->0[0], " #0 "@),
        forall|i: int|
            0 <= i < logged_trace(log)->0.len() ==> #[trigger] logged_trace(log)->0[i].len() > 0,
{
    reveal_strlit(" #0 ");
    let all = lines(log);
    let zero = |line: Seq<char>| text::occurs_in(line, " #0 "@);
    let empty = |line: Seq<char>| line.len() == 0;
    lemma_first_line(all, 0, zero);
    let start = first_line(all, 0, zero)->0;
    lemma_first_line(all, start, empty);
    let end = first_line(all, start, empty)->0;
    assert(zero(all[start]));
    assert(all[start].len() >= 4) by {
        let at = choose|at: int| text::occurs_at(all[start], " #0 "@, at);
        assert(text::occurs_at(all[start], " #0 "@, at));
    }
    assert(end != start) by {
        if end == start {
            assert(empty(all[end]));
        }
    }
    assert forall|i: int| 0 <= i < logged_trace(log)->0.len() implies #[trigger] logged_trace(
        log,
    )->0[i].len() > 0 by {
        assert(!empty(all[start + i]));
    }
}

/// The report made from a log is read back: its stack trace holds the lines of the log's, the
/// sanitizer's parser reads them, and the report is within the limits of that.
pub proof fn law_report_from_log_is_read_back(log: Seq<char>, json: Seq<char>)
    requires
        logged_trace(log) is Some,
        is_log_report(json, logged_trace(log)->0),
    ensures
        ({
            let back = report::report_of_json(vstd::utf8::encode_utf8(json));
            &&& back is Some
            &&& back->0.stacktrace == logged_trace(log)->0
            &&& parsers::parser_of(back->0) == Parser::Sanitizer
            &&& !report::is_beyond_limits(back->0)
            &&& parsers::parsed_frames(back->0) == parsers::asan_frames(logged_trace(log)->0)
        }),
{
}

/// The lines of a text are what stands between its newlines: no line holds one, and with a newline
/// between each two lines the text is whole again.
pub proof fn law_lines_stand_between_newlines(s: Seq<char>)
    ensures
        lines(s).len() > 0,
        text::joined(lines(s)) == s,
        forall|i: int| 0 <= i < lines(s).len() ==> !(#[trigger] lines(s)[i]).contains('\n'),
    decreases s.len(),
{
    if s.len() == 0 {
        text::law_lines_are_joined_by_newlines(Seq::empty(), s);
    } else {
        let front = s.drop_last();
        let before = lines(front);
        law_lines_stand_between_newlines(front);
        if s.last() == '\n' {
            text::law_lines_are_joined_by_newlines(before, Seq::empty());
            assert(text::joined(lines(s)) =~= s);
        } else {
            let last = before.last();
            let others = before.drop_last();
            let longer = last.push(s.last());
            assert(others.push(last) =~= before);
            text::law_lines_are_joined_by_newlines(others, last);
            text::law_lines_are_joined_by_newlines(others, longer);
            if others.len() == 0 {
                assert(others.push(last) =~= seq![last]);
                assert(others.push(longer) =~= seq![longer]);
            }
            assert(lines(s) == others.push(longer));
            assert(text::joined(others.push(longer)) =~= front.push(s.last()));
            assert(front.push(s.last()) =~= s);
            assert forall|i: int| 0 <= i < lines(s).len() implies !(#[trigger] lines(
                s,
            )[i]).contains('\n') by {
                if i < others.len() {
                    assert(lines(s)[i] == before[i]);
                } else {
                    assert(!before[before.len() - 1].contains('\n'));
                    if longer.contains('\n') {
                        let k = choose|k: int| 0 <= k < longer.len() && longer[k] == '\n';
                        assert(k < last.len());
                        assert(last[k] == '\n');
                    }
                }
            }
        }
    }
}

/// The stack trace in a log goes from the first line with a space, a hash sign, a zero and a space
/// in it up to the first empty line behind that.
pub proof fn law_the_logged_trace_goes_from_frame_zero_to_an_empty_line(
    log: Seq<char>,
    start: int,
    end: int,
)
    requires
        0 <= start <= end < lines(log).len(),
        text::occurs_in(lines(log)[start], seq![' ', '#', '0', ' ']),
        forall|k: int|
            0 <= k < start ==> !text::occurs_in(
                #[trigger] lines(log)[k],
                seq![' ', '#', '0', ' '],
            ),
        lines(log)[end].len() == 0,
        forall|k: int| start <= k < end ==> #[trigger] lines(log)[k].len() > 0,
    ensures
        logged_trace(log) is Some,
        logged_trace(log)->0.len() == end - start,
        forall|k: int|
            0 <= k < end - start ==> #[trigger] logged_trace(log)->0[k] == lines(log)[start + k],
{
    reveal_strlit(" #0 ");
    assert(" #0 "@ =~= seq![' ', '#', '0', ' ']);
    let zero = |line: Seq<char>| text::occurs_in(line, " #0 "@);
    let empty = |line: Seq<char>| line.len() == 0;
    lemma_first_line(lines(log), 0, zero);
    lemma_first_line(lines(log), start, empty);
    assert(zero(lines(log)[start]));
    assert(first_line(lines(log), 0, zero) == Some(start));
    assert(empty(lines(log)[end]));
    assert(first_line(lines(log), start, empty) == Some(end));
}

/// A log has no stack trace if no line holds frame zero, or no line behind the first that does is
/// empty.
pub proof fn law_a_log_without_the_two_lines_has_no_trace(log: Seq<char>, start: int)
    requires
        0 <= start <= lines(log).len(),
        forall|k: int|
            0 <= k < start ==> !text::occurs_in(
                #[trigger] lines(log)[k],
                seq![' ', '#', '0', ' '],
            ),
        forall|k: int| start <= k < lines(log).len() ==> #[trigger] lines(log)[k].len() > 0,
    ensures
        logged_trace(log) is None,
{
    reveal_strlit(" #0 ");
    assert(" #0 "@ =~= seq![' ', '#', '0', ' ']);
    let zero = |line: Seq<char>| text::occurs_in(line, " #0 "@);
    let empty = |line: Seq<char>| line.len() == 0;
    lemma_first_line(lines(log), 0, zero);
    if first_line(lines(log), 0, zero) is Some {
        let first = first_line(lines(log), 0, zero)->0;
        assert(zero(lines(log)[first]));
        assert(first >= start);
        lemma_first_line(lines(log), first, empty);
        if first_line(lines(log), first, empty) is Some {
            assert(empty(lines(log)[first_line(lines(log), first, empty)->0]));
        }
    }
}

/// A report made from a log says of the crash nothing but the lines of its stack trace and that a
/// sanitizer wrote it: one line of the sanitizer's report, and no line of any other.
pub proof fn law_a_report_from_a_log_says_no_more_than_the_log(
    json: Seq<char>,
    trace: Seq<Seq<char>>,
)
    requires
        is_log_report(json, trace),
    ensures
        ({
            let back = report::report_of_json(vstd::utf8::encode_utf8(json));
            &&& back is Some
            &&& back->0.stacktrace == trace
            &&& back->0.asan_report.len() == 1
            &&& back->0.asan_report[0] == "ASAN (from log)"@
            &&& back->0.msan_report.len() == 0
            &&& back->0.python_report.len() == 0
            &&& back->0.java_report.len() == 0
            &&& back->0.go_report.len() == 0
            &&& back->0.rust_report.len() == 0
            &&& back->0.js_report.len() == 0
            &&& back->0.csharp_report.len() == 0
            &&& back->0.lua_report.len() == 0
            &&& back->0.proc_maps.len() == 0
            &&& back->0.crashline.len() == 0
        }),
{
}

} // verus!

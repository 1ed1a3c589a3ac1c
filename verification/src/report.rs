//! Crash reports, and the stack traces in them.
use vstd::prelude::*;

use crate::limits;
use crate::parsers;
use crate::stacktrace;
use crate::stacktrace::{DebugInfo, Frame, FrameView};
use crate::text;

verus! {

/// An error of `serde_json`.
#[verifier::external_type_specification]
#[verifier::external_body]
pub struct ExJsonError(serde_json::Error);

/// An error of `libcasr`.
#[verifier::external_type_specification]
#[verifier::external_body]
pub struct ExCasrError(libcasr::error::Error);

/// What a crash report says of the crash, as far as its stack trace and its crash line go. These
/// are fields of `libcasr::report::CrashReport`.
#[derive(Debug)]
pub struct Report {
    /// Lines of the stack trace.
    pub stacktrace: Vec<String>,
    /// Lines of the AddressSanitizer report.
    pub asan_report: Vec<String>,
    /// Lines of the MemorySanitizer report.
    pub msan_report: Vec<String>,
    /// Lines of the Python report.
    pub python_report: Vec<String>,
    /// Lines of the Java report.
    pub java_report: Vec<String>,
    /// Lines of the Go report.
    pub go_report: Vec<String>,
    /// Lines of the Rust report.
    pub rust_report: Vec<String>,
    /// Lines of the JavaScript report.
    pub js_report: Vec<String>,
    /// Lines of the C# report.
    pub csharp_report: Vec<String>,
    /// Lines of the Lua report.
    pub lua_report: Vec<String>,
    /// Memory mappings of the process.
    pub proc_maps: Vec<String>,
    /// Crash line.
    pub crashline: String,
}

/// The model of [`Report`].
#[verifier::ext_equal]
pub struct ReportView {
    pub stacktrace: Seq<Seq<char>>,
    pub asan_report: Seq<Seq<char>>,
    pub msan_report: Seq<Seq<char>>,
    pub python_report: Seq<Seq<char>>,
    pub java_report: Seq<Seq<char>>,
    pub go_report: Seq<Seq<char>>,
    pub rust_report: Seq<Seq<char>>,
    pub js_report: Seq<Seq<char>>,
    pub csharp_report: Seq<Seq<char>>,
    pub lua_report: Seq<Seq<char>>,
    pub proc_maps: Seq<Seq<char>>,
    pub crashline: Seq<char>,
}

impl View for Report {
    type V = ReportView;

    open spec fn view(&self) -> ReportView {
        ReportView {
            stacktrace: text::texts(self.stacktrace@),
            asan_report: text::texts(self.asan_report@),
            msan_report: text::texts(self.msan_report@),
            python_report: text::texts(self.python_report@),
            java_report: text::texts(self.java_report@),
            go_report: text::texts(self.go_report@),
            rust_report: text::texts(self.rust_report@),
            js_report: text::texts(self.js_report@),
            csharp_report: text::texts(self.csharp_report@),
            lua_report: text::texts(self.lua_report@),
            proc_maps: text::texts(self.proc_maps@),
            crashline: self.crashline@,
        }
    }
}

/// The report that `serde_json::from_slice` reads from these bytes, if it reads one.
pub uninterp spec fn report_of_json(json: Seq<u8>) -> Option<ReportView>;

/// Reads a report with `serde_json::from_slice`, which takes the JSON text of a
/// `libcasr::report::CrashReport`. What it reads, and whether it can, is named by
/// [`report_of_json`].
#[verifier::external_body]
fn parse_report(json: &[u8]) -> (r: Result<Report, serde_json::Error>)
    ensures
        match r {
            Ok(report) => report_of_json(json@) == Some(report@),
            Err(_) => report_of_json(json@) is None,
        },
{
    serde_json::from_slice::<libcasr::report::CrashReport>(json).map(|r| Report {
        stacktrace: r.stacktrace,
        asan_report: r.asan_report,
        msan_report: r.msan_report,
        python_report: r.python_report,
        java_report: r.java_report,
        go_report: r.go_report,
        rust_report: r.rust_report,
        js_report: r.js_report,
        csharp_report: r.csharp_report,
        lua_report: r.lua_report,
        proc_maps: r.proc_maps,
        crashline: r.crashline,
    })
}

/// `at` picks the elements of `part` out of `whole`, in order.
pub open spec fn picks<A>(whole: Seq<A>, part: Seq<A>, at: Seq<int>) -> bool {
    &&& at.len() == part.len()
    &&& forall|i: int| 0 <= i < at.len() ==> 0 <= #[trigger] at[i] < whole.len()
    &&& forall|i: int| 0 <= i < at.len() ==> part[i] == whole[#[trigger] at[i]]
    &&& forall|i: int, j: int| 0 <= i < j < at.len() ==> #[trigger] at[i] < #[trigger] at[j]
}

/// How many of the frames, from `from` on, stand above the end of the fuzz target.
pub open spec fn target_end(frames: Seq<FrameView>, from: int) -> int
    decreases frames.len() - from,
{
    if from >= frames.len() {
        frames.len() as int
    } else if text::occurs_in(frames[from].function, "LLVMFuzzerTestOneInput"@) {
        from + 1
    } else {
        target_end(frames, from + 1)
    }
}

/// The frames without those below the fuzz target.
pub open spec fn above_target(frames: Seq<FrameView>) -> Seq<FrameView> {
    frames.take(target_end(frames, 0))
}

/// The frame agrees with a later frame.
pub open spec fn is_repeated(frames: Seq<FrameView>, k: int) -> bool {
    exists|l: int| k < l < frames.len() && frames[k].same(#[trigger] frames[l])
}

/// The frame can be left out: it has a function, a module or a file, which some pattern may match,
/// or it is repeated.
pub open spec fn can_be_left_out(frames: Seq<FrameView>, k: int) -> bool {
    ||| frames[k].function.len() > 0
    ||| frames[k].module.len() > 0
    ||| frames[k].debug.file.len() > 0
    ||| is_repeated(frames, k)
}

/// The frames have the same function, module and file, so a pattern matches both or neither.
pub open spec fn same_names(a: FrameView, b: FrameView) -> bool {
    a.function == b.function && a.module == b.module && a.debug.file == b.debug.file
}

/// `at` picks the frames of `part` out of `whole`, and leaves out only frames that can be left out.
/// Of frames with the same names as one that it picks, it leaves out only repeated ones.
pub open spec fn filters(whole: Seq<FrameView>, part: Seq<FrameView>, at: Seq<int>) -> bool {
    &&& picks(whole, part, at)
    &&& forall|k: int|
        0 <= k < whole.len() && !#[trigger] at.contains(k) ==> can_be_left_out(whole, k)
    &&& forall|k: int, i: int|
        0 <= k < whole.len() && 0 <= i < at.len() && !at.contains(k) && #[trigger] same_names(
            whole[k],
            whole[at[i]],
        ) ==> is_repeated(whole, k)
}

/// `kept` is what is left of the frames of a stack trace for some patterns of frames to ignore:
/// nothing from below the fuzz target, and all but some of the frames that can be left out.
pub open spec fn is_filtered(frames: Seq<FrameView>, kept: Seq<FrameView>) -> bool {
    exists|at: Seq<int>| filters(above_target(frames), kept, at)
}

/// The report is one on which `libcasr` panics.
pub open spec fn is_beyond_limits(report: ReportView) -> bool {
    ||| limits::leads_with_repetition(report)
    ||| limits::has_endless_repetition(report)
    ||| limits::has_overflowing_eval(report)
    ||| limits::has_overflowing_offset(report)
}

/// The stack trace of a report, with `libcasr::report::CrashReport::filtered_stacktrace`.
///
/// That function parses the lines of the stack trace, and leaves out those frames below the fuzz
/// target, those whose function, module or file matches a pattern of frames to ignore, and those
/// that are repeated later. A pattern sees no more of a frame than these three texts. A trace of which
/// nothing is left is an error. Which frames match is not said: the patterns are global variables of
/// `libcasr`. It panics where one of these patterns is no
/// regular expression, which no argument tells. A Python trace makes it panic that starts with a
/// count of repetitions, or has one for which no vector has room, and where overflow is checked so
/// does a line number or a module offset that leaves the range of `u64`.
#[verifier::external_body]
fn filtered_stacktrace(r: Report) -> (trace: Result<Vec<Frame>, libcasr::error::Error>)
    requires
        !is_beyond_limits(r@),
    ensures
        match trace {
            Ok(frames) => frames@.len() > 0 && parsers::parsed_frames(r@) is Some && is_filtered(
                parsers::parsed_frames(r@)->0,
                stacktrace::frames_view(frames@),
            ),
            Err(_) => parsers::parsed_frames(r@) matches Some(frames) ==> is_filtered(
                frames,
                Seq::empty(),
            ),
        },
{
    let raw = libcasr::report::CrashReport {
        stacktrace: r.stacktrace, asan_report: r.asan_report, msan_report: r.msan_report,
        python_report: r.python_report, java_report: r.java_report, go_report: r.go_report,
        rust_report: r.rust_report, js_report: r.js_report, csharp_report: r.csharp_report,
        lua_report: r.lua_report, proc_maps: r.proc_maps, ..Default::default()
    };
    let frame = |f: libcasr::stacktrace::StacktraceEntry| Frame {
        address: f.address,
        function: f.function,
        module: f.module,
        offset: f.offset,
        debug: DebugInfo { file: f.debug.file, line: f.debug.line, column: f.debug.column },
    };
    raw.filtered_stacktrace().map(|trace| trace.into_iter().map(frame).collect())
}

/// Why the stack trace of a report cannot be had.
#[derive(Debug)]
pub enum StacktraceError {
    /// The bytes are no report.
    Malformed(serde_json::Error),
    /// The stack trace starts with a count of repetitions.
    LeadingRepetition,
    /// The stack trace repeats a frame more often than there is room.
    EndlessRepetition,
    /// The line number of a call of `eval` leaves the range of `u64`.
    LineOverflow,
    /// The offset of a frame in its module leaves the range of `u64`.
    OffsetOverflow,
    /// The stack trace cannot be parsed, or no frame is left of it.
    NoStacktrace(libcasr::error::Error),
}

/// The outcome for the report that was read from some bytes, if one was: each report that is beyond
/// the limits has an error of its own, the frames of another are those that the filter leaves, and
/// if there is no stack trace nothing had to be left of it.
pub open spec fn is_outcome(
    report: Option<ReportView>,
    r: Result<Seq<FrameView>, StacktraceError>,
) -> bool {
    match report {
        None => r matches Err(StacktraceError::Malformed(_)),
        Some(report) => if limits::leads_with_repetition(report) {
            r == Err::<Seq<FrameView>, StacktraceError>(StacktraceError::LeadingRepetition)
        } else if limits::has_endless_repetition(report) {
            r == Err::<Seq<FrameView>, StacktraceError>(StacktraceError::EndlessRepetition)
        } else if limits::has_overflowing_eval(report) {
            r == Err::<Seq<FrameView>, StacktraceError>(StacktraceError::LineOverflow)
        } else if limits::has_overflowing_offset(report) {
            r == Err::<Seq<FrameView>, StacktraceError>(StacktraceError::OffsetOverflow)
        } else {
            match r {
                Ok(frames) => frames.len() > 0 && parsers::parsed_frames(report) is Some && is_filtered(
                    parsers::parsed_frames(report)->0,
                    frames,
                ),
                Err(error) => error is NoStacktrace && (parsers::parsed_frames(report) matches Some(frames)
                    ==> is_filtered(frames, Seq::empty())),
            }
        },
    }
}

/// The model of the outcome of reading a stack trace.
pub open spec fn outcome_view(r: Result<Vec<Frame>, StacktraceError>) -> Result<
    Seq<FrameView>,
    StacktraceError,
> {
    match r {
        Ok(frames) => Ok(stacktrace::frames_view(frames@)),
        Err(error) => Err(error),
    }
}

/// The stack trace of the report that stands in these bytes: its frames without those that are not
/// related to the crash.
///
/// Which frames are left depends on the patterns of frames to ignore that are set in `libcasr`.
pub fn get_stacktrace(json: &[u8]) -> (r: Result<Vec<Frame>, StacktraceError>)
    ensures
        is_outcome(report_of_json(json@), outcome_view(r)),
{
    from_parsed(parse_report(json))
}

/// The stack trace for the outcome of reading a report: that of the report, or the error that
/// reading gave.
pub fn from_parsed(parsed: Result<Report, serde_json::Error>) -> (r: Result<
    Vec<Frame>,
    StacktraceError,
>)
    ensures
        match parsed {
            Err(error) => r == Err::<Vec<Frame>, StacktraceError>(
                StacktraceError::Malformed(error),
            ),
            Ok(report) => is_outcome(Some(report@), outcome_view(r)),
        },
{
    match parsed {
        Ok(report) => stacktrace_of(report),
        Err(error) => Err(StacktraceError::Malformed(error)),
    }
}

/// What filtering a stack trace came to: the frames unchanged, or the error.
pub fn from_filtered(filtered: Result<Vec<Frame>, libcasr::error::Error>) -> (r: Result<
    Vec<Frame>,
    StacktraceError,
>)
    ensures
        r == match filtered {
            Ok(frames) => Ok::<Vec<Frame>, StacktraceError>(frames),
            Err(error) => Err(StacktraceError::NoStacktrace(error)),
        },
{
    match filtered {
        Ok(frames) => Ok(frames),
        Err(error) => Err(StacktraceError::NoStacktrace(error)),
    }
}

/// The stack trace of a report: its frames without those that are not related to the crash.
fn stacktrace_of(report: Report) -> (r: Result<Vec<Frame>, StacktraceError>)
    ensures
        is_outcome(Some(report@), outcome_view(r)),
{
    if limits::starts_with_repetition(&report) {
        return Err(StacktraceError::LeadingRepetition);
    }
    if limits::endless_repetition(&report) {
        return Err(StacktraceError::EndlessRepetition);
    }
    if limits::eval_overflow(&report) {
        return Err(StacktraceError::LineOverflow);
    }
    if limits::offset_overflow(&report) {
        return Err(StacktraceError::OffsetOverflow);
    }
    from_filtered(filtered_stacktrace(report))
}

/// What is said of a report at `path` without a stack trace, for the text of the error.
pub fn no_stacktrace_message(error: &str, path: &str) -> (r: String)
    ensures
        r@ == error@ + ". File "@ + path@,
{
    let mut r = error.to_owned();
    r.append(". File ");
    r.append(path);
    r
}

/// A report as the clustering takes it.
#[derive(Debug)]
pub struct ReportInfo {
    /// File name of the report.
    pub report: String,
    /// Stack trace in the report.
    pub frames: Vec<Frame>,
    /// Crash line in the report.
    pub crashline: String,
}

/// The frames in what the clustering takes.
pub open spec fn info_view(r: Result<ReportInfo, StacktraceError>) -> Result<
    Seq<FrameView>,
    StacktraceError,
> {
    match r {
        Ok(info) => Ok(stacktrace::frames_view(info.frames@)),
        Err(error) => Err(error),
    }
}

/// What the clustering takes of the report that stands in these bytes.
pub fn report_info(report: String, json: &[u8]) -> (r: Result<ReportInfo, StacktraceError>)
    ensures
        is_outcome(report_of_json(json@), info_view(r)),
        r matches Ok(info) ==> info.report@ == report@ && info.crashline@ == report_of_json(
            json@,
        )->0.crashline && info.frames@.len() > 0,
{
    info_from_parsed(report, parse_report(json))
}

/// What the clustering takes for the outcome of reading a report: that of the report, or the error
/// that reading gave.
pub fn info_from_parsed(report: String, parsed: Result<Report, serde_json::Error>) -> (r: Result<
    ReportInfo,
    StacktraceError,
>)
    ensures
        match parsed {
            Err(error) => r == Err::<ReportInfo, StacktraceError>(
                StacktraceError::Malformed(error),
            ),
            Ok(parsed) => is_outcome(Some(parsed@), info_view(r)) && (r matches Ok(info)
                ==> info.report@ == report@ && info.crashline@ == parsed@.crashline
                && info.frames@.len() > 0),
        },
{
    let crashline = match &parsed {
        Ok(parsed) => parsed.crashline.clone(),
        Err(_) => String::new(),
    };
    match from_parsed(parsed) {
        Ok(frames) => {
            assert(stacktrace::frames_view(frames@).len() == frames@.len());
            Ok(ReportInfo { report, frames, crashline })
        },
        Err(error) => Err(error),
    }
}

proof fn lemma_picks_all<A>(whole: Seq<A>, part: Seq<A>, at: Seq<int>)
    requires
        picks(whole, part, at),
        forall|k: int| 0 <= k < whole.len() ==> #[trigger] at.contains(k),
    ensures
        part == whole,
{
    assert forall|k: int| 0 <= k < whole.len() implies k < at.len() && #[trigger] at[k] == k by {
        lemma_picks_prefix(whole, part, at, k);
    }
    if at.len() > whole.len() {
        let n = whole.len() as int;
        assert(0 <= at[n] < whole.len());
        let k = at[n];
        assert(at[k] == k);
        assert(at[k] < at[n]);
    }
    if whole.len() > 0 {
        assert(at[whole.len() - 1] == whole.len() - 1);
    }
    assert(at.len() == whole.len());
    assert forall|k: int| 0 <= k < whole.len() implies part[k] == whole[k] by {
        assert(at[k] == k);
    }
    assert(part =~= whole);
}

proof fn lemma_picks_prefix<A>(whole: Seq<A>, part: Seq<A>, at: Seq<int>, n: int)
    requires
        picks(whole, part, at),
        forall|k: int| 0 <= k < whole.len() ==> #[trigger] at.contains(k),
        0 <= n < whole.len(),
    ensures
        n < at.len(),
        at[n] == n,
    decreases n,
{
    if n > 0 {
        lemma_picks_prefix(whole, part, at, n - 1);
    }
    assert(at.contains(n));
    let i = choose|i: int| 0 <= i < at.len() && at[i] == n;
    if i < n {
        if i < n - 1 {
            assert(at[i] < at[n - 1]);
        }
        assert(at[i] <= n - 1);
    } else if i > n {
        assert(at[n] < at[i]);
        if n > 0 {
            assert(at[n - 1] < at[n]);
        }
    }
}

/// Where no frame can be left out, the stack trace is kept as it was parsed.
pub proof fn law_frames_that_cannot_be_left_out_stay(
    frames: Seq<FrameView>,
    kept: Seq<FrameView>,
)
    requires
        is_filtered(frames, kept),
        forall|k: int| 0 <= k < frames.len() ==> !#[trigger] can_be_left_out(frames, k),
    ensures
        kept == frames,
{
    lemma_target_end(frames, 0);
    let whole = above_target(frames);
    assert(target_end(frames, 0) == frames.len()) by {
        let end = target_end(frames, 0);
        if end < frames.len() {
            reveal_strlit("LLVMFuzzerTestOneInput");
            let named = frames[end - 1].function;
            let at = choose|at: int| text::occurs_at(named, "LLVMFuzzerTestOneInput"@, at);
            assert(text::occurs_at(named, "LLVMFuzzerTestOneInput"@, at));
            assert(can_be_left_out(frames, end - 1));
        }
    }
    assert(whole =~= frames);
    let at = choose|at: Seq<int>| filters(whole, kept, at);
    assert forall|k: int| 0 <= k < whole.len() implies #[trigger] at.contains(k) by {
        if !at.contains(k) {
            assert(can_be_left_out(whole, k));
        }
    }
    lemma_picks_all(whole, kept, at);
}

proof fn lemma_target_end(frames: Seq<FrameView>, from: int)
    requires
        0 <= from <= frames.len(),
    ensures
        from <= target_end(frames, from) <= frames.len(),
        target_end(frames, from) < frames.len() ==> from < target_end(frames, from)
            && text::occurs_in(
            frames[target_end(frames, from) - 1].function,
            "LLVMFuzzerTestOneInput"@,
        ),
        forall|k: int|
            from <= k < target_end(frames, from) - 1 ==> !text::occurs_in(
                #[trigger] frames[k].function,
                "LLVMFuzzerTestOneInput"@,
            ),
    decreases frames.len() - from,
{
    if from < frames.len() && !text::occurs_in(
        frames[from].function,
        "LLVMFuzzerTestOneInput"@,
    ) {
        lemma_target_end(frames, from + 1);
    }
}

/// The last frame above the fuzz target stays unless a pattern may match it, so there is then a
/// stack trace.
pub proof fn law_an_unnamed_last_frame_stays(frames: Seq<FrameView>, kept: Seq<FrameView>)
    requires
        is_filtered(frames, kept),
        above_target(frames).len() > 0,
        above_target(frames).last().function.len() == 0,
        above_target(frames).last().module.len() == 0,
        above_target(frames).last().debug.file.len() == 0,
    ensures
        kept.len() > 0,
        kept.last() == above_target(frames).last(),
{
    let whole = above_target(frames);
    let at = choose|at: Seq<int>| filters(whole, kept, at);
    let n = whole.len() - 1;
    if !at.contains(n) {
        assert(can_be_left_out(whole, n));
    }
    let i = choose|i: int| 0 <= i < at.len() && at[i] == n;
    if i < at.len() - 1 {
        assert(at[i] < at[at.len() - 1]);
    }
}

/// A frame with the names of one that stays does so too, unless it is repeated.
pub proof fn law_a_frame_named_like_one_that_stays_stays(
    frames: Seq<FrameView>,
    kept: Seq<FrameView>,
    i: int,
    k: int,
)
    requires
        is_filtered(frames, kept),
        0 <= i < kept.len(),
        0 <= k < above_target(frames).len(),
        same_names(above_target(frames)[k], kept[i]),
        !is_repeated(above_target(frames), k),
    ensures
        kept.contains(above_target(frames)[k]),
{
    let whole = above_target(frames);
    let at = choose|at: Seq<int>| filters(whole, kept, at);
    assert(kept[i] == whole[at[i]]);
    assert(same_names(whole[k], whole[at[i]]));
    assert(at.contains(k));
    let j = choose|j: int| 0 <= j < at.len() && at[j] == k;
    assert(kept[j] == whole[at[j]]);
}

/// The model of a report has each line of each part of it.
pub proof fn law_the_model_of_a_report_is_complete(r: Report)
    ensures
        r@.stacktrace == Seq::new(r.stacktrace@.len(), |i: int| r.stacktrace@[i]@),
        r@.asan_report == Seq::new(r.asan_report@.len(), |i: int| r.asan_report@[i]@),
        r@.msan_report == Seq::new(r.msan_report@.len(), |i: int| r.msan_report@[i]@),
        r@.python_report == Seq::new(r.python_report@.len(), |i: int| r.python_report@[i]@),
        r@.java_report == Seq::new(r.java_report@.len(), |i: int| r.java_report@[i]@),
        r@.go_report == Seq::new(r.go_report@.len(), |i: int| r.go_report@[i]@),
        r@.rust_report == Seq::new(r.rust_report@.len(), |i: int| r.rust_report@[i]@),
        r@.js_report == Seq::new(r.js_report@.len(), |i: int| r.js_report@[i]@),
        r@.csharp_report == Seq::new(r.csharp_report@.len(), |i: int| r.csharp_report@[i]@),
        r@.lua_report == Seq::new(r.lua_report@.len(), |i: int| r.lua_report@[i]@),
        r@.proc_maps == Seq::new(r.proc_maps@.len(), |i: int| r.proc_maps@[i]@),
        r@.crashline == r.crashline@,
{
}

/// The frames above the fuzz target end with the first frame whose function has its name in it, and
/// are all frames where there is no such frame.
pub proof fn law_the_fuzz_target_is_the_last_frame_that_counts(frames: Seq<FrameView>, target: int)
    requires
        0 <= target <= frames.len(),
        target < frames.len() ==> text::occurs_in(
            frames[target].function,
            "LLVMFuzzerTestOneInput"@,
        ),
        forall|k: int|
            0 <= k < target ==> !text::occurs_in(
                (#[trigger] frames[k]).function,
                "LLVMFuzzerTestOneInput"@,
            ),
    ensures
        target < frames.len() ==> above_target(frames) == frames.take(target + 1),
        target == frames.len() ==> above_target(frames) == frames,
{
    lemma_target_end(frames, 0);
    let end = target_end(frames, 0);
    if target < frames.len() {
        if end - 1 > target {
            assert(!text::occurs_in(frames[target].function, "LLVMFuzzerTestOneInput"@));
        }
        if end - 1 < target {
            assert(!text::occurs_in(frames[end - 1].function, "LLVMFuzzerTestOneInput"@));
        }
    } else {
        if end < frames.len() {
            assert(!text::occurs_in(frames[end - 1].function, "LLVMFuzzerTestOneInput"@));
        }
        assert(frames.take(frames.len() as int) =~= frames);
    }
}

/// What is left of a stack trace are frames of it, unchanged and in their order, and none of them
/// stands below a frame of the fuzz target.
pub proof fn law_what_is_left_are_frames_in_order(
    frames: Seq<FrameView>,
    kept: Seq<FrameView>,
) -> (at: Seq<int>)
    requires
        is_filtered(frames, kept),
    ensures
        at.len() == kept.len(),
        forall|i: int|
            0 <= i < at.len() ==> 0 <= #[trigger] at[i] < frames.len() && kept[i]
                == frames[at[i]],
        forall|i: int, j: int| 0 <= i < j < at.len() ==> #[trigger] at[i] < #[trigger] at[j],
        forall|i: int, k: int|
            0 <= i < at.len() && 0 <= k < #[trigger] at[i] ==> !text::occurs_in(
                #[trigger] frames[k].function,
                "LLVMFuzzerTestOneInput"@,
            ),
{
    lemma_target_end(frames, 0);
    choose|at: Seq<int>| filters(above_target(frames), kept, at)
}

/// A frame above the fuzz target of which neither function nor module nor file is known, and with
/// which no later frame agrees, is left.
pub proof fn law_an_unnamed_frame_is_left(frames: Seq<FrameView>, kept: Seq<FrameView>, k: int)
    requires
        is_filtered(frames, kept),
        0 <= k < frames.len(),
        forall|j: int|
            0 <= j < k ==> !text::occurs_in(
                (#[trigger] frames[j]).function,
                "LLVMFuzzerTestOneInput"@,
            ),
        frames[k].function.len() == 0,
        frames[k].module.len() == 0,
        frames[k].debug.file.len() == 0,
        forall|l: int| k < l < frames.len() ==> !frames[k].same(#[trigger] frames[l]),
    ensures
        kept.contains(frames[k]),
{
    lemma_target_end(frames, 0);
    let whole = above_target(frames);
    let end = target_end(frames, 0);
    if end <= k {
        assert(!text::occurs_in(frames[end - 1].function, "LLVMFuzzerTestOneInput"@));
    }
    assert(whole[k] == frames[k]);
    let at = choose|at: Seq<int>| filters(whole, kept, at);
    assert(at.contains(k)) by {
        if !at.contains(k) {
            assert(can_be_left_out(whole, k));
            let l = choose|l: int| k < l < whole.len() && whole[k].same(#[trigger] whole[l]);
            assert(!frames[k].same(frames[l]));
        }
    }
    let i = choose|i: int| 0 <= i < at.len() && at[i] == k;
    assert(kept[i] == whole[at[i]]);
}

/// Frames are given only for a report that was read, that is beyond no limit and whose stack trace
/// could be parsed: at least one frame, of those that were parsed. Each limit has its own error, which
/// tells that the limits named before it hold.
pub proof fn law_each_limit_has_its_own_error(
    report: Option<ReportView>,
    r: Result<Seq<FrameView>, StacktraceError>,
)
    requires
        is_outcome(report, r),
    ensures
        r matches Err(StacktraceError::Malformed(_)) <==> report is None,
        r == Err::<Seq<FrameView>, StacktraceError>(StacktraceError::LeadingRepetition) <==> (
        report matches Some(found) && limits::leads_with_repetition(found)),
        r == Err::<Seq<FrameView>, StacktraceError>(StacktraceError::EndlessRepetition) <==> (
        report matches Some(found) && !limits::leads_with_repetition(found)
            && limits::has_endless_repetition(found)),
        r == Err::<Seq<FrameView>, StacktraceError>(StacktraceError::LineOverflow) <==> (
        report matches Some(found) && !limits::leads_with_repetition(found)
            && !limits::has_endless_repetition(found) && limits::has_overflowing_eval(found)),
        r == Err::<Seq<FrameView>, StacktraceError>(StacktraceError::OffsetOverflow) <==> (
        report matches Some(found) && !limits::leads_with_repetition(found)
            && !limits::has_endless_repetition(found) && !limits::has_overflowing_eval(found)
            && limits::has_overflowing_offset(found)),
        r matches Ok(frames) ==> report is Some && !is_beyond_limits(report->0)
            && parsers::parsed_frames(report->0) is Some && frames.len() > 0 && forall|i: int|
            0 <= i < frames.len() ==> parsers::parsed_frames(report->0)->0.contains(
                #[trigger] frames[i],
            ),
        (report matches Some(found) && !is_beyond_limits(found) && parsers::parsed_frames(
            found,
        ) is None) ==> r matches Err(StacktraceError::NoStacktrace(_)),
{
    if r is Ok {
        let frames = r->Ok_0;
        let parsed = parsers::parsed_frames(report->0)->0;
        let at = law_what_is_left_are_frames_in_order(parsed, frames);
        assert forall|i: int| 0 <= i < frames.len() implies parsed.contains(
            #[trigger] frames[i],
        ) by {
            assert(frames[i] == parsed[at[i]]);
        }
    }
}

/// The models of what reading and filtering a report came to have the frames one by one, and the
/// same error.
pub proof fn law_the_models_of_outcomes_are_complete(
    r: Result<Vec<Frame>, StacktraceError>,
    info: Result<ReportInfo, StacktraceError>,
)
    ensures
        match r {
            Ok(frames) => outcome_view(r) is Ok && outcome_view(r)->Ok_0 == Seq::new(
                frames@.len(),
                |i: int| frames@[i]@,
            ),
            Err(error) => outcome_view(r) == Err::<Seq<FrameView>, StacktraceError>(error),
        },
        match info {
            Ok(found) => info_view(info) is Ok && info_view(info)->Ok_0 == Seq::new(
                found.frames@.len(),
                |i: int| found.frames@[i]@,
            ),
            Err(error) => info_view(info) == Err::<Seq<FrameView>, StacktraceError>(error),
        },
{
    if let Ok(frames) = r {
        assert(stacktrace::frames_view(frames@) =~= Seq::new(
            frames@.len(),
            |i: int| frames@[i]@,
        ));
    }
    if let Ok(found) = info {
        assert(stacktrace::frames_view(found.frames@) =~= Seq::new(
            found.frames@.len(),
            |i: int| found.frames@[i]@,
        ));
    }
}

} // verus!

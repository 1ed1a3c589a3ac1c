//! The parsers of `libcasr` for the lines of stack traces.
use gdb_command::mappings::{MappedFiles, MappedFilesExt};
use libcasr::stacktrace::{ParseStacktrace, StacktraceEntry};
use vstd::prelude::*;

use crate::limits;
use crate::report::{Report, ReportView};
use crate::stacktrace;
use crate::stacktrace::{DebugInfo, Frame, FrameView};
use crate::text;

verus! {

/// The parsers of `libcasr` for stack traces.
#[derive(Debug, Clone, Copy, PartialEq, Eq, Structural)]
pub enum Parser {
    Sanitizer,
    Python,
    Java,
    Go,
    Rust,
    Js,
    CSharp,
    Lua,
    Gdb,
}

/// The parser for the stack trace of a report: that of the first kind of report which is not empty.
pub open spec fn parser_of(report: ReportView) -> Parser {
    if report.asan_report.len() > 0 || report.msan_report.len() > 0 {
        Parser::Sanitizer
    } else if report.python_report.len() > 0 {
        Parser::Python
    } else if report.java_report.len() > 0 {
        Parser::Java
    } else if report.go_report.len() > 0 {
        Parser::Go
    } else if report.rust_report.len() > 0 {
        Parser::Rust
    } else if report.js_report.len() > 0 {
        Parser::Js
    } else if report.csharp_report.len() > 0 {
        Parser::CSharp
    } else if report.lua_report.len() > 0 {
        Parser::Lua
    } else {
        Parser::Gdb
    }
}

/// The parser for the stack trace of a report.
pub fn choose_parser(report: &Report) -> (r: Parser)
    ensures
        r == parser_of(report@),
{
    if report.asan_report.len() > 0 || report.msan_report.len() > 0 {
        Parser::Sanitizer
    } else if report.python_report.len() > 0 {
        Parser::Python
    } else if report.java_report.len() > 0 {
        Parser::Java
    } else if report.go_report.len() > 0 {
        Parser::Go
    } else if report.rust_report.len() > 0 {
        Parser::Rust
    } else if report.js_report.len() > 0 {
        Parser::Js
    } else if report.csharp_report.len() > 0 {
        Parser::CSharp
    } else if report.lua_report.len() > 0 {
        Parser::Lua
    } else {
        Parser::Gdb
    }
}

/// The frames that `libcasr::asan::AsanStacktrace::parse_stacktrace` finds in the lines, if it
/// can parse them.
pub uninterp spec fn asan_frames(lines: Seq<Seq<char>>) -> Option<Seq<FrameView>>;

/// The frames that `libcasr::python::PythonStacktrace::parse_stacktrace` finds in the lines, if it
/// can parse them.
pub uninterp spec fn python_frames(lines: Seq<Seq<char>>) -> Option<Seq<FrameView>>;

/// The frames that `libcasr::java::JavaStacktrace::parse_stacktrace` finds in the lines, if it
/// can parse them.
pub uninterp spec fn java_frames(lines: Seq<Seq<char>>) -> Option<Seq<FrameView>>;

/// The frames that `libcasr::go::GoStacktrace::parse_stacktrace` finds in the lines, if it
/// can parse them.
pub uninterp spec fn go_frames(lines: Seq<Seq<char>>) -> Option<Seq<FrameView>>;

/// The frames that `libcasr::rust::RustStacktrace::parse_stacktrace` finds in the lines, if it
/// can parse them.
pub uninterp spec fn rust_frames(lines: Seq<Seq<char>>) -> Option<Seq<FrameView>>;

/// The frames that `libcasr::js::JsStacktrace::parse_stacktrace` finds in the lines, if it
/// can parse them.
pub uninterp spec fn js_frames(lines: Seq<Seq<char>>) -> Option<Seq<FrameView>>;

/// The frames that `libcasr::csharp::CSharpStacktrace::parse_stacktrace` finds in the lines, if it
/// can parse them.
pub uninterp spec fn csharp_frames(lines: Seq<Seq<char>>) -> Option<Seq<FrameView>>;

/// The frames that `libcasr::lua::LuaStacktrace::parse_stacktrace` finds in the lines, if it
/// can parse them.
pub uninterp spec fn lua_frames(lines: Seq<Seq<char>>) -> Option<Seq<FrameView>>;

/// The frames that `libcasr::gdb::GdbStacktrace::parse_stacktrace` finds in the lines, if it
/// can parse them.
pub uninterp spec fn gdb_frames(lines: Seq<Seq<char>>) -> Option<Seq<FrameView>>;

/// The frames that `libcasr::asan::AsanStacktrace::parse_stacktrace` finds in the lines, which
/// [`asan_frames`] names; none where it fails.
#[verifier::external_body]
fn parse_asan(lines: &[String]) -> (r: Option<Vec<Frame>>)
    ensures
        match r {
            Some(frames) => asan_frames(text::texts(lines@)) == Some(
                stacktrace::frames_view(frames@),
            ),
            None => asan_frames(text::texts(lines@)) is None,
        },
{
    let frame = |StacktraceEntry { address, function, module, offset, debug: d }| Frame {
        address, function, module, offset,
        debug: DebugInfo { file: d.file, line: d.line, column: d.column },
    };
    let trace = <libcasr::asan::AsanStacktrace as ParseStacktrace>::parse_stacktrace(lines);
    trace.ok().map(|trace| trace.into_iter().map(frame).collect())
}

/// The frames that `libcasr::python::PythonStacktrace::parse_stacktrace` finds in the lines, which
/// [`python_frames`] names; none where it fails. A first line that repeats the frame before it makes it
/// panic, and so does one that repeats it more often than a vector has room.
#[verifier::external_body]
pub(crate) fn parse_python(lines: &[String]) -> (r: Option<Vec<Frame>>)
    requires
        !limits::starts_repeating(text::texts(lines@)),
        !limits::some_line_is_endless(text::texts(lines@)),
    ensures
        match r {
            Some(frames) => python_frames(text::texts(lines@)) == Some(
                stacktrace::frames_view(frames@),
            ),
            None => python_frames(text::texts(lines@)) is None,
        },
{
    let frame = |StacktraceEntry { address, function, module, offset, debug: d }| Frame {
        address, function, module, offset,
        debug: DebugInfo { file: d.file, line: d.line, column: d.column },
    };
    let trace = <libcasr::python::PythonStacktrace as ParseStacktrace>::parse_stacktrace(lines);
    trace.ok().map(|trace| trace.into_iter().map(frame).collect())
}

/// The frames that `libcasr::java::JavaStacktrace::parse_stacktrace` finds in the lines, which
/// [`java_frames`] names; none where it fails.
#[verifier::external_body]
fn parse_java(lines: &[String]) -> (r: Option<Vec<Frame>>)
    ensures
        match r {
            Some(frames) => java_frames(text::texts(lines@)) == Some(
                stacktrace::frames_view(frames@),
            ),
            None => java_frames(text::texts(lines@)) is None,
        },
{
    let frame = |StacktraceEntry { address, function, module, offset, debug: d }| Frame {
        address, function, module, offset,
        debug: DebugInfo { file: d.file, line: d.line, column: d.column },
    };
    let trace = <libcasr::java::JavaStacktrace as ParseStacktrace>::parse_stacktrace(lines);
    trace.ok().map(|trace| trace.into_iter().map(frame).collect())
}

/// The frames that `libcasr::go::GoStacktrace::parse_stacktrace` finds in the lines, which
/// [`go_frames`] names; none where it fails.
#[verifier::external_body]
fn parse_go(lines: &[String]) -> (r: Option<Vec<Frame>>)
    ensures
        match r {
            Some(frames) => go_frames(text::texts(lines@)) == Some(
                stacktrace::frames_view(frames@),
            ),
            None => go_frames(text::texts(lines@)) is None,
        },
{
    let frame = |StacktraceEntry { address, function, module, offset, debug: d }| Frame {
        address, function, module, offset,
        debug: DebugInfo { file: d.file, line: d.line, column: d.column },
    };
    let trace = <libcasr::go::GoStacktrace as ParseStacktrace>::parse_stacktrace(lines);
    trace.ok().map(|trace| trace.into_iter().map(frame).collect())
}

/// The frames that `libcasr::rust::RustStacktrace::parse_stacktrace` finds in the lines, which
/// [`rust_frames`] names; none where it fails.
#[verifier::external_body]
fn parse_rust(lines: &[String]) -> (r: Option<Vec<Frame>>)
    ensures
        match r {
            Some(frames) => rust_frames(text::texts(lines@)) == Some(
                stacktrace::frames_view(frames@),
            ),
            None => rust_frames(text::texts(lines@)) is None,
        },
{
    let frame = |StacktraceEntry { address, function, module, offset, debug: d }| Frame {
        address, function, module, offset,
        debug: DebugInfo { file: d.file, line: d.line, column: d.column },
    };
    let trace = <libcasr::rust::RustStacktrace as ParseStacktrace>::parse_stacktrace(lines);
    trace.ok().map(|trace| trace.into_iter().map(frame).collect())
}

/// The frames that `libcasr::js::JsStacktrace::parse_stacktrace` finds in the lines, which
/// [`js_frames`] names; none where it fails. A line number that leaves the range of `u64` makes it
/// panic where overflow is checked.
#[verifier::external_body]
pub(crate) fn parse_js(lines: &[String]) -> (r: Option<Vec<Frame>>)
    requires
        !limits::some_eval_overflows(text::texts(lines@)),
    ensures
        match r {
            Some(frames) => js_frames(text::texts(lines@)) == Some(
                stacktrace::frames_view(frames@),
            ),
            None => js_frames(text::texts(lines@)) is None,
        },
{
    let frame = |StacktraceEntry { address, function, module, offset, debug: d }| Frame {
        address, function, module, offset,
        debug: DebugInfo { file: d.file, line: d.line, column: d.column },
    };
    let trace = <libcasr::js::JsStacktrace as ParseStacktrace>::parse_stacktrace(lines);
    trace.ok().map(|trace| trace.into_iter().map(frame).collect())
}

/// The frames that `libcasr::csharp::CSharpStacktrace::parse_stacktrace` finds in the lines, which
/// [`csharp_frames`] names; none where it fails.
#[verifier::external_body]
fn parse_csharp(lines: &[String]) -> (r: Option<Vec<Frame>>)
    ensures
        match r {
            Some(frames) => csharp_frames(text::texts(lines@)) == Some(
                stacktrace::frames_view(frames@),
            ),
            None => csharp_frames(text::texts(lines@)) is None,
        },
{
    let frame = |StacktraceEntry { address, function, module, offset, debug: d }| Frame {
        address, function, module, offset,
        debug: DebugInfo { file: d.file, line: d.line, column: d.column },
    };
    let trace = <libcasr::csharp::CSharpStacktrace as ParseStacktrace>::parse_stacktrace(lines);
    trace.ok().map(|trace| trace.into_iter().map(frame).collect())
}

/// The frames that `libcasr::lua::LuaStacktrace::parse_stacktrace` finds in the lines, which
/// [`lua_frames`] names; none where it fails.
#[verifier::external_body]
fn parse_lua(lines: &[String]) -> (r: Option<Vec<Frame>>)
    ensures
        match r {
            Some(frames) => lua_frames(text::texts(lines@)) == Some(
                stacktrace::frames_view(frames@),
            ),
            None => lua_frames(text::texts(lines@)) is None,
        },
{
    let frame = |StacktraceEntry { address, function, module, offset, debug: d }| Frame {
        address, function, module, offset,
        debug: DebugInfo { file: d.file, line: d.line, column: d.column },
    };
    let trace = <libcasr::lua::LuaStacktrace as ParseStacktrace>::parse_stacktrace(lines);
    trace.ok().map(|trace| trace.into_iter().map(frame).collect())
}

/// The frames that `libcasr::gdb::GdbStacktrace::parse_stacktrace` finds in the lines, which
/// [`gdb_frames`] names; none where it fails.
#[verifier::external_body]
fn parse_gdb(lines: &[String]) -> (r: Option<Vec<Frame>>)
    ensures
        match r {
            Some(frames) => gdb_frames(text::texts(lines@)) == Some(
                stacktrace::frames_view(frames@),
            ),
            None => gdb_frames(text::texts(lines@)) is None,
        },
{
    let frame = |StacktraceEntry { address, function, module, offset, debug: d }| Frame {
        address, function, module, offset,
        debug: DebugInfo { file: d.file, line: d.line, column: d.column },
    };
    let trace = <libcasr::gdb::GdbStacktrace as ParseStacktrace>::parse_stacktrace(lines);
    trace.ok().map(|trace| trace.into_iter().map(frame).collect())
}

/// The frames that the parser for a report finds in the lines of its stack trace, if it can parse
/// them.
pub open spec fn raw_frames(report: ReportView) -> Option<Seq<FrameView>> {
    match parser_of(report) {
        Parser::Sanitizer => asan_frames(report.stacktrace),
        Parser::Python => python_frames(report.stacktrace),
        Parser::Java => java_frames(report.stacktrace),
        Parser::Go => go_frames(report.stacktrace),
        Parser::Rust => rust_frames(report.stacktrace),
        Parser::Js => js_frames(report.stacktrace),
        Parser::CSharp => csharp_frames(report.stacktrace),
        Parser::Lua => lua_frames(report.stacktrace),
        Parser::Gdb => gdb_frames(report.stacktrace),
    }
}

/// The frames that the parser for a report finds in the lines of its stack trace, if it can parse
/// them.
pub(crate) fn parse_trace(report: &Report) -> (r: Option<Vec<Frame>>)
    requires
        !limits::leads_with_repetition(report@),
        !limits::has_endless_repetition(report@),
        !limits::has_overflowing_eval(report@),
    ensures
        match r {
            Some(frames) => raw_frames(report@) == Some(stacktrace::frames_view(frames@)),
            None => raw_frames(report@) is None,
        },
{
    let lines = report.stacktrace.as_slice();
    match choose_parser(report) {
        Parser::Sanitizer => parse_asan(lines),
        Parser::Python => parse_python(lines),
        Parser::Java => parse_java(lines),
        Parser::Go => parse_go(lines),
        Parser::Rust => parse_rust(lines),
        Parser::Js => parse_js(lines),
        Parser::CSharp => parse_csharp(lines),
        Parser::Lua => parse_lua(lines),
        Parser::Gdb => parse_gdb(lines),
    }
}

/// A file mapped into memory.
#[derive(Debug)]
pub struct Mapping {
    /// First address.
    pub start: u64,
    /// Address behind the last.
    pub end: u64,
    /// Offset in the file.
    pub offset: u64,
    /// Path of the file.
    pub name: String,
}

/// The model of [`Mapping`].
#[verifier::ext_equal]
pub struct MappingView {
    pub start: u64,
    pub end: u64,
    pub offset: u64,
    pub name: Seq<char>,
}

impl View for Mapping {
    type V = MappingView;

    open spec fn view(&self) -> MappingView {
        MappingView { start: self.start, end: self.end, offset: self.offset, name: self.name@ }
    }
}

/// The models of the mapped files.
pub open spec fn mappings_view(mappings: Seq<Mapping>) -> Seq<MappingView> {
    mappings.map_values(|m: Mapping| m@)
}

/// The mapped files that `gdb_command::mappings::MappedFiles::from_gdb` reads from a text, if it can.
pub uninterp spec fn mapped_files(maps: Seq<char>) -> Option<Seq<MappingView>>;

/// The mapped files that `gdb_command::mappings::MappedFiles::from_gdb` reads from a text, which
/// [`mapped_files`] names; none where it fails.
#[verifier::external_body]
pub(crate) fn parse_maps(maps: &str) -> (r: Option<Vec<Mapping>>)
    ensures
        match r {
            Some(found) => mapped_files(maps@) == Some(mappings_view(found@)),
            None => mapped_files(maps@) is None,
        },
{
    let files = <MappedFiles as MappedFilesExt>::from_gdb(maps).ok();
    let mapping = |f: gdb_command::mappings::File| Mapping {
        start: f.start,
        end: f.end,
        offset: f.offset,
        name: f.name,
    };
    files.map(|files| files.into_iter().map(mapping).collect())
}

/// The first mapping, not before `from`, that holds an address.
pub open spec fn mapping_of(mappings: Seq<MappingView>, address: u64, from: int) -> Option<MappingView>
    decreases mappings.len() - from,
{
    if from >= mappings.len() {
        None
    } else if mappings[from].start <= address < mappings[from].end {
        Some(mappings[from])
    } else {
        mapping_of(mappings, address, from + 1)
    }
}

/// A frame with the module and the offset that the files mapped into memory give it.
pub open spec fn located(frame: FrameView, mappings: Seq<MappingView>) -> FrameView {
    match mapping_of(mappings, frame.address, 0) {
        Some(mapping) => FrameView {
            offset: (frame.address - mapping.start + mapping.offset) as u64,
            module: if mapping.name.len() > 0 {
                mapping.name
            } else {
                frame.module
            },
            ..frame
        },
        None => frame,
    }
}

/// The frames of the stack trace of a report, in the modules that its mapped files show, if both can
/// be parsed.
pub open spec fn parsed_frames(report: ReportView) -> Option<Seq<FrameView>> {
    match raw_frames(report) {
        Some(frames) => if report.proc_maps.len() == 0 {
            Some(frames)
        } else {
            match mapped_files(text::joined(report.proc_maps)) {
                Some(mappings) => Some(frames.map_values(|f: FrameView| located(f, mappings))),
                None => None,
            }
        },
        None => None,
    }
}

/// A sanitizer's report, if there is one, decides on the parser. Else the first report that is there
/// decides, of Python, Java, Go, Rust, JavaScript, C# and Lua in this order. The debugger's parser
/// is left for a report with none of these.
pub proof fn law_the_first_report_that_is_there_tells_the_parser(report: ReportView)
    ensures
        ({
            let sanitizer = report.asan_report.len() + report.msan_report.len();
            let to_java = sanitizer + report.python_report.len() + report.java_report.len();
            let to_rust = to_java + report.go_report.len() + report.rust_report.len();
            let to_csharp = to_rust + report.js_report.len() + report.csharp_report.len();
            let p = parser_of(report);
            &&& p == Parser::Sanitizer <==> sanitizer > 0
            &&& p == Parser::Python <==> sanitizer == 0 && report.python_report.len() > 0
            &&& p == Parser::Java <==> to_java == report.java_report.len() > 0
            &&& p == Parser::Go <==> to_java == 0 && report.go_report.len() > 0
            &&& p == Parser::Rust <==> to_rust == report.rust_report.len() > 0
            &&& p == Parser::Js <==> to_rust == 0 && report.js_report.len() > 0
            &&& p == Parser::CSharp <==> to_csharp == report.csharp_report.len() > 0
            &&& p == Parser::Lua <==> to_csharp == 0 && report.lua_report.len() > 0
            &&& p == Parser::Gdb <==> to_csharp + report.lua_report.len() == 0
        }),
{
}

/// Each parser is given all lines of the stack trace, and nothing else of the report.
pub proof fn law_a_parser_is_given_all_lines_of_the_trace(report: ReportView)
    ensures
        parser_of(report) == Parser::Sanitizer ==> raw_frames(report) == asan_frames(
            report.stacktrace,
        ),
        parser_of(report) == Parser::Python ==> raw_frames(report) == python_frames(
            report.stacktrace,
        ),
        parser_of(report) == Parser::Java ==> raw_frames(report) == java_frames(report.stacktrace),
        parser_of(report) == Parser::Go ==> raw_frames(report) == go_frames(report.stacktrace),
        parser_of(report) == Parser::Rust ==> raw_frames(report) == rust_frames(report.stacktrace),
        parser_of(report) == Parser::Js ==> raw_frames(report) == js_frames(report.stacktrace),
        parser_of(report) == Parser::CSharp ==> raw_frames(report) == csharp_frames(
            report.stacktrace,
        ),
        parser_of(report) == Parser::Lua ==> raw_frames(report) == lua_frames(report.stacktrace),
        parser_of(report) == Parser::Gdb ==> raw_frames(report) == gdb_frames(report.stacktrace),
{
}

/// The model of mapped files has all that is known of each.
pub proof fn law_the_model_of_mappings_is_complete(mappings: Seq<Mapping>)
    ensures
        mappings_view(mappings).len() == mappings.len(),
        forall|i: int|
            0 <= i < mappings.len() ==> (#[trigger] mappings_view(mappings)[i]).start
                == mappings[i].start && mappings_view(mappings)[i].end == mappings[i].end
                && mappings_view(mappings)[i].offset == mappings[i].offset && mappings_view(
                mappings,
            )[i].name == mappings[i].name@,
{
}

/// The mapping of an address is the first of which the first address is not above it and the end is.
pub proof fn law_the_first_mapping_around_an_address_counts(
    mappings: Seq<MappingView>,
    address: u64,
    i: int,
)
    requires
        0 <= i <= mappings.len(),
        i < mappings.len() ==> mappings[i].start <= address < mappings[i].end,
        forall|j: int|
            0 <= j < i ==> address < (#[trigger] mappings[j]).start || mappings[j].end <= address,
    ensures
        i < mappings.len() ==> mapping_of(mappings, address, 0) == Some(mappings[i]),
        i == mappings.len() ==> mapping_of(mappings, address, 0) is None,
{
    lemma_mapping_of(mappings, address, 0, i);
}

proof fn lemma_mapping_of(mappings: Seq<MappingView>, address: u64, from: int, i: int)
    requires
        0 <= from <= i <= mappings.len(),
        i < mappings.len() ==> mappings[i].start <= address < mappings[i].end,
        forall|j: int|
            0 <= j < i ==> address < (#[trigger] mappings[j]).start || mappings[j].end <= address,
    ensures
        i < mappings.len() ==> mapping_of(mappings, address, from) == Some(mappings[i]),
        i == mappings.len() ==> mapping_of(mappings, address, from) is None,
    decreases i - from,
{
    if from < i {
        assert(address < mappings[from].start || mappings[from].end <= address);
        lemma_mapping_of(mappings, address, from + 1, i);
    }
}

/// A frame in a mapped file gets its offset in that file, and the path of the file as its module if
/// the file has one. Nothing else of it changes.
pub proof fn law_a_frame_gets_its_place_in_the_mapped_file(
    frame: FrameView,
    mappings: Seq<MappingView>,
    i: int,
)
    requires
        0 <= i < mappings.len(),
        mappings[i].start <= frame.address < mappings[i].end,
        forall|j: int|
            0 <= j < i ==> frame.address < (#[trigger] mappings[j]).start || mappings[j].end
                <= frame.address,
        frame.address - mappings[i].start + mappings[i].offset <= 0xffff_ffff_ffff_ffff,
    ensures
        located(frame, mappings).offset - mappings[i].offset == frame.address - mappings[i].start,
        mappings[i].name.len() > 0 ==> located(frame, mappings).module == mappings[i].name,
        mappings[i].name.len() == 0 ==> located(frame, mappings).module == frame.module,
        located(frame, mappings).address == frame.address,
        located(frame, mappings).function == frame.function,
        located(frame, mappings).debug == frame.debug,
{
    law_the_first_mapping_around_an_address_counts(mappings, frame.address, i);
}

/// A frame outside all mapped files stays as it is.
pub proof fn law_a_frame_outside_all_mappings_stays(frame: FrameView, mappings: Seq<MappingView>)
    requires
        forall|j: int|
            0 <= j < mappings.len() ==> frame.address < (#[trigger] mappings[j]).start
                || mappings[j].end <= frame.address,
    ensures
        located(frame, mappings) == frame,
{
    law_the_first_mapping_around_an_address_counts(
        mappings,
        frame.address,
        mappings.len() as int,
    );
}

/// No frame is lost or moved by looking at the mapped files: there are as many as were parsed, each in
/// its position. Without lines on mapped files they are left as they were parsed.
pub proof fn law_mapped_files_change_no_order(report: ReportView)
    ensures
        raw_frames(report) is None ==> parsed_frames(report) is None,
        report.proc_maps.len() == 0 ==> parsed_frames(report) == raw_frames(report),
        raw_frames(report) matches Some(frames) ==> report.proc_maps.len() > 0 ==> match mapped_files(
            text::joined(report.proc_maps),
        ) {
            None => parsed_frames(report) is None,
            Some(mappings) => parsed_frames(report) matches Some(found) && found.len()
                == frames.len() && forall|i: int|
                0 <= i < frames.len() ==> #[trigger] found[i] == located(frames[i], mappings),
        },
{
}

} // verus!

//! Reports: from a log to a report, from a report to its stack trace.
use casr_cluster_map::limits::{count_repetitions, eval_sum_overflows};
use casr_cluster_map::log::{report_from_extracted, report_from_log, LogError, LogFile};
use casr_cluster_map::report::{
    from_filtered, from_parsed, get_stacktrace, info_from_parsed, no_stacktrace_message, report_info,
    StacktraceError,
};
use casr_cluster_map::stacktrace::Frame;
use libcasr::report::CrashReport;
use libcasr::stacktrace::ParseStacktrace;

const LOG: &str = "==1==ERROR: AddressSanitizer: heap-use-after-free
READ of size 1
    #0 0x401000 in inner /src/a.c:3:5
    #1 0x402000 in outer /src/b.c:7
    #2 0x403000  (/bin/t+0x1234)

0x602 is located inside
    #0 0x9 in malloc

";

fn log(content: &str) -> LogFile {
    LogFile::Content(content.to_string())
}

fn lines(texts: &[&str]) -> Vec<String> {
    texts.iter().map(|t| t.to_string()).collect()
}

fn report_from_lines(trace: &[&str]) -> Result<String, LogError> {
    report_from_extracted(Ok(lines(trace)), "today".to_string())
}

fn casr_error(text: &str) -> libcasr::error::Error {
    libcasr::error::Error::Casr(text.to_string())
}

fn functions(frames: &Vec<Frame>) -> Vec<String> {
    frames.iter().map(|f| f.function.clone()).collect()
}

#[test]
fn a_log_gives_a_report_with_its_first_stack_trace() {
    let json = report_from_log(log(LOG)).unwrap();
    let frames = get_stacktrace(json.as_bytes()).unwrap();
    assert_eq!(functions(&frames), vec!["inner", "outer", ""]);
    assert_eq!(frames[0].address, 0x401000);
    assert_eq!(frames[0].debug.file, "/src/a.c");
    assert_eq!((frames[0].debug.line, frames[0].debug.column), (3, 5));
    assert_eq!(frames[1].debug.file, "/src/b.c");
    assert_eq!((frames[1].debug.line, frames[1].debug.column), (7, 0));
    assert_eq!(frames[2].module, "/bin/t");
    assert_eq!(frames[2].offset, 0x1234);
}

#[test]
fn a_report_from_a_log_bears_a_mark_and_the_lines() {
    let json = report_from_log(log(LOG)).unwrap();
    let value: serde_json::Value = serde_json::from_str(&json).unwrap();
    assert_eq!(value["AsanReport"][0].as_str(), Some("ASAN (from log)"));
    assert_eq!(value["AsanReport"].as_array().unwrap().len(), 1);
    let lines: Vec<&str> =
        value["Stacktrace"].as_array().unwrap().iter().map(|l| l.as_str().unwrap()).collect();
    assert_eq!(
        lines,
        vec![
            "    #0 0x401000 in inner /src/a.c:3:5",
            "    #1 0x402000 in outer /src/b.c:7",
            "    #2 0x403000  (/bin/t+0x1234)",
        ]
    );
}

#[test]
fn a_report_from_a_log_is_otherwise_new() {
    let json = report_from_lines(&["    #0 0x1 in parse /a.c:1:1"]).unwrap();
    let mut report = CrashReport::new();
    report.date = "today".to_string();
    report.stacktrace = lines(&["    #0 0x1 in parse /a.c:1:1"]);
    report.asan_report = lines(&["ASAN (from log)"]);
    assert_eq!(json, serde_json::to_string_pretty(&report).unwrap());
    let dated = report_from_log(log(LOG)).unwrap();
    let value: serde_json::Value = serde_json::from_str(&dated).unwrap();
    assert!(value["Date"].as_str().unwrap().starts_with("20"));
}

#[test]
fn a_log_may_give_no_report() {
    assert!(matches!(report_from_log(LogFile::Missing), Err(LogError::NotFound)));
    assert!(matches!(report_from_log(log("")), Err(LogError::Empty)));
    for content in ["no trace\n\n", "  #0 0x1 in f", "\n#0 0x1 in f\n\n"] {
        assert!(matches!(report_from_log(log(content)), Err(LogError::NotExtracted(_))));
    }
    assert!(matches!(report_from_lines(&[]), Err(LogError::NoStacktrace)));
}

#[test]
fn causes_are_kept() {
    let error = std::io::Error::new(std::io::ErrorKind::Other, "no disk");
    match report_from_log(LogFile::Unreadable(error)).unwrap_err() {
        LogError::Unreadable(cause) => assert_eq!(cause.to_string(), "no disk"),
        other => panic!("{other:?}"),
    }
    match report_from_log(log("  #0 0x1 in f")).unwrap_err() {
        LogError::NotExtracted(cause) => assert_eq!(
            cause.to_string(),
            "Casr: Couldn't find stack trace end in sanitizer's report"
        ),
        other => panic!("{other:?}"),
    }
    match report_from_extracted(Err(casr_error("odd")), String::new()).unwrap_err() {
        LogError::NotExtracted(cause) => assert_eq!(cause.to_string(), "Casr: odd"),
        other => panic!("{other:?}"),
    }
    match from_filtered(Err(casr_error("odd"))).unwrap_err() {
        StacktraceError::NoStacktrace(cause) => assert_eq!(cause.to_string(), "Casr: odd"),
        other => panic!("{other:?}"),
    }
    assert_eq!(from_filtered(Ok(vec![])).unwrap().len(), 0);
    assert_eq!(no_stacktrace_message("Casr: odd", "/r/c.casrep"), "Casr: odd. File /r/c.casrep");
}

#[test]
fn what_is_said_of_a_log() {
    let io = std::io::Error::new(std::io::ErrorKind::Other, "no disk");
    let json = serde_json::from_str::<u8>("x").unwrap_err();
    let cases = [
        (LogError::NotFound, "Log file not found: /l/c.log"),
        (LogError::Unreadable(io), "Failed to read log: /l/c.log"),
        (LogError::Empty, "Log file is empty: /l/c.log"),
        (LogError::NotExtracted(casr_error("x")), "Failed to extract stacktrace from /l/c.log"),
        (LogError::NoStacktrace, "No stacktrace found in log: /l/c.log"),
        (LogError::NotSerialized(json), "Failed to serialize the report of /l/c.log"),
    ];
    for (error, message) in cases {
        assert_eq!(error.message("/l/c.log"), message);
    }
}

#[test]
fn lines_that_are_no_frames_give_no_stack_trace() {
    let json = report_from_lines(&["gibberish"]).unwrap();
    let error = get_stacktrace(json.as_bytes()).unwrap_err();
    assert!(matches!(error, StacktraceError::NoStacktrace(_)));
}

#[test]
fn frames_below_the_fuzz_target_and_repetitions_are_dropped() {
    let trace = [
        "    #0 0x1 in parse /a.c:1:1",
        "    #1 0x1 in parse /a.c:1:1",
        "    #2 0x1 in parse /a.c:1:1",
        "    #3 0x2 in LLVMFuzzerTestOneInput /a.c:9:1",
        "    #4 0x3 in below /a.c:5:1",
    ];
    let json = report_from_lines(&trace).unwrap();
    let frames = get_stacktrace(json.as_bytes()).unwrap();
    assert_eq!(functions(&frames), vec!["parse", "LLVMFuzzerTestOneInput"]);
}

#[test]
fn bytes_that_are_no_report_are_malformed() {
    for bytes in [&b""[..], b"{", b"[1]", b"\xff"] {
        let error = get_stacktrace(bytes).unwrap_err();
        assert!(matches!(error, StacktraceError::Malformed(_)));
        let error = report_info("r".to_string(), bytes).unwrap_err();
        assert!(matches!(error, StacktraceError::Malformed(_)));
    }
}

#[test]
fn the_error_of_reading_is_kept() {
    let error = || serde_json::from_str::<u8>("[1, 2").unwrap_err();
    match from_parsed(Err(error())).unwrap_err() {
        StacktraceError::Malformed(cause) => assert_eq!(cause.to_string(), error().to_string()),
        other => panic!("{other:?}"),
    }
    match info_from_parsed("r".to_string(), Err(error())).unwrap_err() {
        StacktraceError::Malformed(cause) => assert_eq!(cause.to_string(), error().to_string()),
        other => panic!("{other:?}"),
    }
    for bytes in [&b"{"[..], b"[1]", b"{\"Date\": 3}", b"\xff"] {
        let expected = serde_json::from_slice::<CrashReport>(bytes).unwrap_err().to_string();
        match get_stacktrace(bytes).unwrap_err() {
            StacktraceError::Malformed(cause) => assert_eq!(cause.to_string(), expected),
            other => panic!("{other:?}"),
        }
        match report_info("r".to_string(), bytes).unwrap_err() {
            StacktraceError::Malformed(cause) => assert_eq!(cause.to_string(), expected),
            other => panic!("{other:?}"),
        }
    }
}

#[test]
fn frames_with_the_names_of_a_kept_one_stay() {
    let trace = [
        "    #0 0x1 in parse /a.c:1:1",
        "    #1 0x2 in parse /a.c:2:1",
        "    #2 0x3 in x /a.c:3:1",
        "    #3 0x4 in parse /a.c:4:1",
    ];
    let json = report_from_lines(&trace).unwrap();
    let frames = get_stacktrace(json.as_bytes()).unwrap();
    assert_eq!(frames.iter().map(|f| f.address).collect::<Vec<_>>(), vec![1, 2, 4]);
}

#[test]
fn frames_without_names_stay() {
    let json =
        report_from_lines(&["    #0 0x3", "    #1 0x1", "    #2 0x2"]).unwrap();
    let frames = get_stacktrace(json.as_bytes()).unwrap();
    assert_eq!(frames.iter().map(|f| f.address).collect::<Vec<_>>(), vec![3, 1, 2]);
}

fn python_lines(trace: &[&str]) -> String {
    let mut report = CrashReport::new();
    report.python_report = lines(&["Traceback"]);
    report.stacktrace = lines(trace);
    report.crashline = "a.py:2".to_string();
    serde_json::to_string(&report).unwrap()
}

fn python_report(line: &str) -> String {
    python_lines(&[line])
}

const CALL: &str = "File \"a.py\", line 2, in parse";

#[test]
fn a_python_trace_may_not_start_with_a_repetition() {
    let json = python_report("[Previous line repeated 3 more times]");
    let error = get_stacktrace(json.as_bytes()).unwrap_err();
    assert!(matches!(error, StacktraceError::LeadingRepetition));
    let error = report_info("r".to_string(), json.as_bytes()).unwrap_err();
    assert!(matches!(error, StacktraceError::LeadingRepetition));
    let json = python_lines(&[CALL, "[Previous line repeated 3 more times]"]);
    assert_eq!(functions(&get_stacktrace(json.as_bytes()).unwrap()), vec!["parse"]);
}

#[test]
fn a_frame_may_not_be_repeated_without_end() {
    let endless = "[Previous line repeated 9223372036854775808 more times]";
    let error = get_stacktrace(python_lines(&[CALL, endless]).as_bytes()).unwrap_err();
    assert!(matches!(error, StacktraceError::EndlessRepetition));
    let error = get_stacktrace(python_lines(&[CALL, "gibberish", endless]).as_bytes()).unwrap_err();
    assert!(matches!(error, StacktraceError::NoStacktrace(_)));
    let error = get_stacktrace(python_lines(&[endless]).as_bytes()).unwrap_err();
    assert!(matches!(error, StacktraceError::LeadingRepetition));
    assert_eq!(count_repetitions(endless), Some(9223372036854775808));
    assert_eq!(count_repetitions(CALL), None);
}

#[test]
fn other_brackets_at_the_start_of_a_python_trace_are_ordinary_errors() {
    for line in [
        "[abc",
        "[",
        "  [Previous line repeated 3 more times]",
        "[Previous line repeated 18446744073709551616 more times]",
        "[Previous line repeated  more times]",
        "[Previous line repeated 3 more time]",
        "[Previous line repeated \u{663} more times]",
        "[Previous line repeated \u{663} more times][Previous line repeated 3 more times]",
    ] {
        let error = get_stacktrace(python_report(line).as_bytes()).unwrap_err();
        match error {
            StacktraceError::NoStacktrace(cause) => assert!(cause.to_string().contains(line)),
            other => panic!("{line}: {other:?}"),
        }
    }
}

#[test]
fn repetitions_are_those_of_the_python_parser() {
    let agrees = |line: &str| {
        let parsed = libcasr::python::PythonStacktrace::parse_stacktrace(&lines(&[CALL, line]));
        assert_eq!(count_repetitions(line).is_some(), parsed.is_ok(), "{line}");
    };
    for line in [
        "[abc",
        "[Previous line repeated 3 more times]",
        "[Previous line repeated 0003 more times] and more",
        "[x][Previous line repeated 3 more times]",
        "[Previous line repeated 3 more times",
        "[Previous line repeated 3 [Previous line repeated 4 more times]",
        "[Previous line repeated 99999999999999999999 more times][Previous line repeated 1 more times]",
        "[Previous line repeated +3 more times]",
    ] {
        agrees(line);
    }
    for c in (0..=char::MAX as u32).filter_map(char::from_u32).filter(|c| c.is_numeric()) {
        agrees(&format!(
            "[Previous line repeated {c} more times][Previous line repeated 1 more times]"
        ));
    }
}

fn js_report(trace: &[&str]) -> String {
    let mut report = CrashReport::new();
    report.js_report = lines(&["Error"]);
    report.stacktrace = lines(trace);
    serde_json::to_string(&report).unwrap()
}

#[test]
fn the_lines_of_a_call_of_eval_are_added() {
    let json = js_report(&["at eval (eval at run (/a.js:7:2), <anonymous>:8:13)"]);
    let frames = get_stacktrace(json.as_bytes()).unwrap();
    assert_eq!((frames[0].debug.line, frames[0].debug.column), (12, 13));
    let json = js_report(&["at eval (eval at run (/a.js:18446744073709551615:1), /b.js:3:1)"]);
    let frames = get_stacktrace(json.as_bytes()).unwrap();
    assert_eq!(frames[0].debug.line, u64::MAX);
}

#[test]
fn a_line_number_may_not_overflow() {
    let over = "at eval (eval at run (/a.js:18446744073709551615:1), /b.js:4:1)";
    let error = get_stacktrace(js_report(&[over]).as_bytes()).unwrap_err();
    assert!(matches!(error, StacktraceError::LineOverflow));
    let error = get_stacktrace(js_report(&["at run (/a.js:1:1)", over]).as_bytes()).unwrap_err();
    assert!(matches!(error, StacktraceError::LineOverflow));
    let error = get_stacktrace(js_report(&["gibberish", over]).as_bytes()).unwrap_err();
    assert!(matches!(error, StacktraceError::NoStacktrace(_)));
    let hidden = format!("{over} unknown location");
    let json = js_report(&["at run (/a.js:1:1)", &hidden]);
    assert_eq!(functions(&get_stacktrace(json.as_bytes()).unwrap()), vec!["run"]);
}

#[test]
fn sums_are_those_of_the_javascript_parser() {
    for template in [
        "at eval (eval at run (/a.js:OUT:2), /b.js:IN:13)",
        "at eval (eval at run (/a.js:OUT), /b.js:IN)",
        "at eval (eval at run [as go] (/a.js:OUT:2), /b.js:IN:13)",
        "at eval (eval at run [as go] x (/a.js:OUT:2), /b.js:IN:13)",
        "at eval (eval at run [as g] (o] (/a.js:OUT:2), /b.js:IN:13)",
        "at eval (eval at /a.js:OUT:2, /b.js:IN:13)",
        "at eval (eval at /a.js:OUT:2, /b.js:1:13, /c.js:IN:9)",
        "at eval (eval at file:///a.js:OUT:2, http://b:80/c.js:IN:13)",
        "at eval (eval at run ((/a.js:OUT:2), /b.js:IN:13)",
        "at eval (eval at run (x (/a.js:OUT:2)), /b.js:IN:13)",
        "at eval (eval at run (/a.js:OUT:2), /b.js:IN:x)",
        "at eval (eval at run (/a.js:OUT:x), /b.js:IN:13)",
        "at eval (eval at run (/a.js:+OUT:2), /b.js:+IN:13)",
        "at eval (eval at run (/a.js:OUT:2),/b.js:IN:13)",
        "at eval (eval at (/a.js:OUT:2), /b.js:IN:13)",
        "at eval (eval at  (/a.js:OUT:2), /b.js:IN:13)",
        "at eval (eval at run (/a.js:OUT:2), /b.js:IN:13) ",
        " at eval (eval at run (/a.js:OUT:2), /b.js:IN:13)",
        "at eval (eval at run (/a.js:OUT:2), )",
        "at eval (eval at run (), /b.js:IN:13)",
        "at eval (eval at run (/a.js:OUT:2), /b.js:IN:13), /c.js:IN:1)",
        "at eval (eval at run\n (/a.js:OUT:2), /b.js:IN:13)",
        "at run (/a.js:OUT:IN)",
        "at /a.js:OUT:IN",
        "gibberish OUT IN",
        "",
    ] {
        let small = template.replace("OUT", "100").replace("IN", "53");
        let added = libcasr::js::JsStacktrace::parse_stacktrace_entry(&small)
            .is_ok_and(|frame| frame.debug.line == 150);
        let large = template.replace("OUT", "18446744073709551615").replace("IN", "4");
        assert_eq!(eval_sum_overflows(&large), added, "{template}");
        let fits = template.replace("OUT", "18446744073709551614").replace("IN", "4");
        assert!(!eval_sum_overflows(&fits), "{template}");
        let below = template.replace("OUT", "18446744073709551615").replace("IN", "2");
        assert!(!eval_sum_overflows(&below), "{template}");
    }
}

fn gdb_report(trace: &[&str], maps: &[&str]) -> String {
    let mut report = CrashReport::new();
    report.stacktrace = lines(trace);
    report.proc_maps = lines(maps);
    serde_json::to_string(&report).unwrap()
}

#[test]
fn mapped_files_give_frames_their_modules() {
    let maps = ["0x1000 0x2000 0x1000 0x30 /lib/one", "0x1800 0x2800 0x1000 0x0 /lib/two"];
    let json = gdb_report(&["#0 0x1900 in run ()", "#1 0x2100 in call ()", "#2 0x9 in up ()"], &maps);
    let frames = get_stacktrace(json.as_bytes()).unwrap();
    let places: Vec<(&str, u64)> =
        frames.iter().map(|f| (f.module.as_str(), f.offset)).collect();
    assert_eq!(places, vec![("/lib/one", 0x930), ("/lib/two", 0x900), ("", 0)]);
}

#[test]
fn an_offset_may_not_overflow() {
    let maps = ["0x1000 0x2000 0x1000 0xffffffffffffff00 /lib/one"];
    let json = gdb_report(&["#0 0x1100 in run ()"], &maps);
    let error = get_stacktrace(json.as_bytes()).unwrap_err();
    assert!(matches!(error, StacktraceError::OffsetOverflow));
    let json = gdb_report(&["#0 0x10ff in run ()", "#1 0x2000 in call ()"], &maps);
    let frames = get_stacktrace(json.as_bytes()).unwrap();
    assert_eq!(frames[0].offset, u64::MAX);
    let json = gdb_report(&["gibberish", "#0 0x1100 in run ()"], &maps);
    let error = get_stacktrace(json.as_bytes()).unwrap_err();
    assert!(matches!(error, StacktraceError::NoStacktrace(_)));
    let json = gdb_report(&["#0 0x1100 in run ()"], &[maps[0], "short"]);
    let error = get_stacktrace(json.as_bytes()).unwrap_err();
    assert!(matches!(error, StacktraceError::NoStacktrace(_)));
}

#[test]
fn every_parser_gives_its_frames_modules() {
    let maps = ["0x0 0x10 0x10 0x5 /lib/zero", "0x1000 0x2000 0x1000 0xffffffffffffff00 /lib/one"];
    let place = |set: fn(&mut CrashReport), line: &str| {
        let mut report = CrashReport::new();
        set(&mut report);
        report.stacktrace = lines(&[line]);
        report.proc_maps = lines(&maps);
        let json = serde_json::to_string(&report).unwrap();
        get_stacktrace(json.as_bytes()).map(|frames| frames[0].offset)
    };
    let zero: [(fn(&mut CrashReport), &str); 5] = [
        (|r| r.python_report = vec!["x".to_string()], "File \"a.py\", line 2, in parse"),
        (|r| r.java_report = vec!["x".to_string()], "at parse(A.java:3)"),
        (|r| r.go_report = vec!["x".to_string()], "parse in /a.go:3"),
        (|r| r.js_report = vec!["x".to_string()], "at parse (/a.js:3:1)"),
        (|r| r.lua_report = vec!["x".to_string()], "a.lua:3: in function 'parse'"),
    ];
    for (set, line) in zero {
        assert_eq!(place(set, line).unwrap(), 5, "{line}");
    }
    let over: [(fn(&mut CrashReport), &str); 4] = [
        (|r| r.asan_report = vec!["x".to_string()], "#0 0x1100 in parse /a.c:1:1"),
        (|r| r.msan_report = vec!["x".to_string()], "#0 0x1100 in parse /a.c:1:1"),
        (|r| r.rust_report = vec!["x".to_string()], "   0: 0x1100 - parse"),
        (|r| r.csharp_report = vec!["x".to_string()], "at Parse () <0x1100 + 0x0>"),
    ];
    for (set, line) in over {
        let error = place(set, line).unwrap_err();
        assert!(matches!(error, StacktraceError::OffsetOverflow), "{line}");
    }
}

#[test]
fn the_clustering_takes_the_name_the_frames_and_the_crash_line() {
    let json = python_report("  File \"a.py\", line 2, in parse");
    let info = report_info("c.casrep".to_string(), json.as_bytes()).unwrap();
    assert_eq!(info.report, "c.casrep");
    assert_eq!(info.crashline, "a.py:2");
    assert_eq!(functions(&info.frames), vec!["parse"]);
    assert_eq!(info.frames[0].debug.file, "a.py");
    assert_eq!(info.frames[0].debug.line, 2);
}

//! The set-up of a run: the tool, the command line and the messages.
use casr_cluster_map::command::{
    log_file_name, report_command, report_file_name, report_outcome, CommandArg,
};
use casr_cluster_map::fuzzer::FuzzerType;
use casr_cluster_map::setup::{
    binary_args, default_jobs, failure_lines, job_count, no_crashes_message, ArgsError, Failure,
};
use casr_cluster_map::text::{
    has_infix, has_prefix, has_suffix, holds, precedes, replace, split_words, to_decimal, trim,
};
use casr_cluster_map::tool::{detect_tool, hint_tool, tool_named, Tool};

fn strings(texts: &[&str]) -> Vec<String> {
    texts.iter().map(|t| t.to_string()).collect()
}

fn command(crash: &str, args: &[&str], timeout: u64) -> Vec<String> {
    report_command(crash, &strings(args), timeout)
        .into_iter()
        .map(|arg| match arg {
            CommandArg::ReportPath => "<report>".to_string(),
            CommandArg::Text(text) => text,
        })
        .collect()
}

#[test]
fn the_path_of_a_target_hints_at_the_tool() {
    let cases = [
        ("fuzz.py", Some(Tool::Python)),
        ("fuzz.js", Some(Tool::Js)),
        ("/usr/bin/node", Some(Tool::Js)),
        ("/usr/bin/java", Some(Tool::Java)),
        ("./jazzer", Some(Tool::Java)),
        ("fuzz.lua", Some(Tool::Lua)),
        ("/opt/luajit/fuzz", Some(Tool::Lua)),
        ("./fuzz", None),
        ("fuzz.pyc", None),
    ];
    for (path, tool) in cases {
        assert_eq!(hint_tool(Some(path)), tool);
        let sanitized = Some(strings(&["__asan"]));
        assert_eq!(detect_tool(Some(path), &sanitized), tool.unwrap_or(Tool::San));
        assert_eq!(detect_tool(Some(path), &None), tool.unwrap_or(Tool::Gdb));
    }
    assert_eq!(hint_tool(None), None);
}

#[test]
fn sanitizer_symbols_ask_for_the_sanitizer_tool() {
    for symbol in ["__asan", "__msan", "__tsan"] {
        let symbols = Some(strings(&["main", symbol]));
        assert_eq!(detect_tool(Some("./fuzz"), &symbols), Tool::San);
        assert_eq!(detect_tool(None, &symbols), Tool::San);
    }
    for symbols in [None, Some(vec![]), Some(strings(&["__ubsan", "__asan_init", "asan"]))] {
        assert_eq!(detect_tool(Some("./fuzz"), &symbols), Tool::Gdb);
    }
}

#[test]
fn tools_and_their_names() {
    let tools =
        [Tool::San, Tool::Gdb, Tool::Python, Tool::Java, Tool::Js, Tool::Lua, Tool::CSharp];
    for tool in tools {
        assert_eq!(tool_named(&tool.name().to_string()), Some(tool));
    }
    assert_eq!(Tool::CSharp.name(), "casr-csharp");
    assert_eq!(tool_named(&"casr-go".to_string()), None);
}

#[test]
fn the_crash_takes_the_place_of_the_placeholder() {
    assert_eq!(
        command("/in/crash-1", &["./t", "--in=@@", "-x", "@@"], 30),
        strings(&["-o", "<report>", "-t", "30", "--", "./t", "--in=/in/crash-1", "-x", "/in/crash-1"])
    );
    assert_eq!(
        command("c", &["a@@b@@@"], 0),
        strings(&["-o", "<report>", "--", "acbc@"])
    );
}

#[test]
fn without_a_placeholder_the_crash_comes_last() {
    assert_eq!(
        command("/in/crash-1", &["./t", "a@b"], 0),
        strings(&["-o", "<report>", "--", "./t", "a@b", "/in/crash-1"])
    );
    assert_eq!(command("c", &[], 7), strings(&["-o", "<report>", "-t", "7", "--", "c"]));
}

#[test]
fn names_of_reports_and_logs() {
    assert_eq!(report_file_name("crash-1"), "crash-1.casrep");
    assert_eq!(log_file_name("crash-1"), "crash-1.log");
}

#[test]
fn a_report_needs_success_and_a_file() {
    assert_eq!(report_outcome(true, true, "c", "noise"), Ok(()));
    let message = "Failed to generate report for c: no such file".to_string();
    assert_eq!(report_outcome(false, true, "c", "\n no such file \t\n"), Err(message.clone()));
    assert_eq!(report_outcome(true, false, "c", "no such file"), Err(message));
    assert_eq!(
        report_outcome(false, false, "c", " \n"),
        Err("Failed to generate report for c: ".to_string())
    );
}

#[test]
fn jobs_default_to_half_of_the_cpus() {
    assert_eq!(default_jobs(0), 1);
    assert_eq!(default_jobs(1), 1);
    assert_eq!(default_jobs(3), 1);
    assert_eq!(default_jobs(4), 2);
    assert_eq!(default_jobs(17), 8);
    assert_eq!(job_count(Some(12)), 12);
    assert_eq!(job_count(None), default_jobs(num_cpus::get()));
}

#[test]
fn the_target_is_taken_from_the_user_first() {
    let given = Some(strings(&["./t", "@@"]));
    let left = Some(strings(&["./afl"]));
    for fuzzer in [FuzzerType::Afl, FuzzerType::LibFuzzer] {
        assert_eq!(
            binary_args(given.clone(), fuzzer, left.clone()),
            Ok(strings(&["./t", "@@"]))
        );
        assert_eq!(binary_args(Some(vec![]), fuzzer, left.clone()), Err(ArgsError::Empty));
    }
    assert_eq!(binary_args(None, FuzzerType::Afl, left.clone()), Ok(strings(&["./afl"])));
    assert_eq!(binary_args(None, FuzzerType::Afl, Some(vec![])), Err(ArgsError::Empty));
    assert_eq!(binary_args(None, FuzzerType::Afl, None), Err(ArgsError::NoCmdline));
    assert_eq!(binary_args(None, FuzzerType::LibFuzzer, left), Err(ArgsError::NoArgs));
}

#[test]
fn what_is_said_without_a_target() {
    assert_eq!(
        ArgsError::NoCmdline.message(),
        "No ARGS provided and couldn't read cmdline file from AFL directory"
    );
    assert_eq!(ArgsError::NoArgs.message(), "No target binary specified (use -- ./binary @@)");
    assert_eq!(ArgsError::Empty.message(), "No target binary specified");
}

#[test]
fn what_is_said_without_crashes() {
    assert_eq!(
        no_crashes_message("/in", FuzzerType::LibFuzzer),
        "No crash files found in /in. Expected crash-* or leak-* files in the input directory"
    );
    assert_eq!(
        no_crashes_message("/in", FuzzerType::Afl),
        "No crash files found in /in. Expected AFL++ directory structure with crashes/id* files"
    );
}

#[test]
fn five_failures_are_told_one_by_one() {
    let failure = |i: usize| Failure { crash_path: format!("/in/{i}"), error: format!("e{i}") };
    let five: Vec<Failure> = (0..5).map(failure).collect();
    let lines = strings(&["  /in/0: e0", "  /in/1: e1", "  /in/2: e2", "  /in/3: e3", "  /in/4: e4"]);
    assert_eq!(failure_lines(&five), lines);
    let many: Vec<Failure> = (0..17).map(failure).collect();
    let mut more = lines.clone();
    more.push("  ... and 12 more".to_string());
    assert_eq!(failure_lines(&many), more);
    assert_eq!(failure_lines(&vec![]), Vec::<String>::new());
}

#[test]
fn text_functions_agree_with_the_standard_library() {
    let texts = ["", "@@", "a@@b", "@@@", " \u{2003}x y\n", "\u{feff}z", "ab", "abc", "b", "\u{1f600}@"];
    for a in texts {
        assert_eq!(trim(a), a.trim());
        assert_eq!(split_words(a), strings(&a.split_whitespace().collect::<Vec<_>>()));
        assert_eq!(replace(a, "@@", "-@-"), a.replace("@@", "-@-"));
        for b in texts {
            assert_eq!(has_prefix(a, b), a.starts_with(b));
            assert_eq!(has_suffix(a, b), a.ends_with(b));
            assert_eq!(has_infix(a, b), a.contains(b));
            assert_eq!(precedes(a, b), a <= b);
        }
    }
    for c in (0..=char::MAX as u32).filter_map(char::from_u32) {
        if c.is_whitespace() {
            let s = c.to_string();
            assert_eq!(trim(&s), "");
        }
    }
    for n in [0, 7, 10, 99, 100, 1234567890, u64::MAX] {
        assert_eq!(to_decimal(n), n.to_string());
    }
    assert!(holds(&strings(&["a", "b"]), &"b".to_string()));
    assert!(!holds(&strings(&["a", "b"]), &"ab".to_string()));
}

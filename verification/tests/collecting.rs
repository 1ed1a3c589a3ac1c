//! Crash directories: which fuzzer wrote one, and which of its files are crashes.
use casr_cluster_map::fuzzer::{
    choose_fuzzer, collect_afl_crashes, collect_libfuzzer_crashes, detect_fuzzer_type,
    is_crashes_name, read_afl_cmdline, AflDir, CmdlineEntry, FileEntry, FuzzerType, InputEntry, Node,
    NodeEntry,
};

fn entry(name: &str, is_dir: bool, has_crashes: bool) -> InputEntry {
    InputEntry { name: name.to_string(), is_dir, has_crashes }
}

fn file(path: &'static str) -> FileEntry<&'static str> {
    let name = path.rsplit('/').next().unwrap().to_string();
    FileEntry { path, name, is_file: true }
}

fn dir(path: &'static str) -> FileEntry<&'static str> {
    FileEntry { is_file: false, ..file(path) }
}

fn node_entry(name: &str, is_dir: bool, files: Vec<FileEntry<&'static str>>) -> NodeEntry<
    &'static str,
> {
    NodeEntry { name: name.to_string(), is_dir, files }
}

fn cmdline(is_dir: bool, content: Option<&str>) -> CmdlineEntry {
    CmdlineEntry { is_dir, cmdline: content.map(|c| c.to_string()) }
}

#[test]
fn an_option_chooses_the_fuzzer() {
    assert_eq!(choose_fuzzer(&"libfuzzer".to_string()), Some(FuzzerType::LibFuzzer));
    assert_eq!(choose_fuzzer(&"afl".to_string()), Some(FuzzerType::Afl));
    assert_eq!(choose_fuzzer(&"auto".to_string()), None);
    assert_eq!(choose_fuzzer(&"AFL".to_string()), None);
    assert_eq!(choose_fuzzer(&String::new()), None);
}

#[test]
fn a_crashes_directory_means_afl() {
    let named = vec![entry("crash-1", false, false)];
    assert_eq!(detect_fuzzer_type(true, &named), FuzzerType::Afl);
    assert_eq!(detect_fuzzer_type(false, &named), FuzzerType::LibFuzzer);
}

#[test]
fn a_node_with_a_crashes_directory_means_afl() {
    let entries = vec![entry("crash-1", false, false), entry("main", true, true)];
    assert_eq!(detect_fuzzer_type(false, &entries), FuzzerType::Afl);
    let entries = vec![entry("crash-1", false, false), entry("main", true, false)];
    assert_eq!(detect_fuzzer_type(false, &entries), FuzzerType::LibFuzzer);
    let entries = vec![entry("id:0", false, false), entry("main", false, true)];
    assert_eq!(detect_fuzzer_type(false, &entries), FuzzerType::Afl);
}

#[test]
fn the_first_telling_name_decides() {
    let entries =
        vec![entry("notes", false, false), entry("id-0", false, false), entry("leak-1", false, false)];
    assert_eq!(detect_fuzzer_type(false, &entries), FuzzerType::Afl);
    let entries =
        vec![entry("identity", false, false), entry("leak-1", false, false), entry("id:0", false, false)];
    assert_eq!(detect_fuzzer_type(false, &entries), FuzzerType::LibFuzzer);
}

#[test]
fn without_a_sign_it_is_libfuzzer() {
    assert_eq!(detect_fuzzer_type(false, &vec![]), FuzzerType::LibFuzzer);
    let entries = vec![entry("notes", false, false), entry("id", false, false)];
    assert_eq!(detect_fuzzer_type(false, &entries), FuzzerType::LibFuzzer);
}

#[test]
fn libfuzzer_crashes_go_by_their_names() {
    let files = vec![
        file("in/crash-1"),
        file("in/crash-2.bin"),
        file("in/leak-3.x"),
        file("in/.hidden"),
        file("in/.crash-4"),
        file("in/deadbeef"),
        file("in/report.txt"),
        dir("in/crash-5"),
        file("in/oom-6"),
    ];
    assert_eq!(
        collect_libfuzzer_crashes(files),
        vec!["in/crash-1", "in/crash-2.bin", "in/leak-3.x", "in/deadbeef", "in/oom-6"]
    );
    assert!(collect_libfuzzer_crashes(Vec::<FileEntry<u8>>::new()).is_empty());
}

#[test]
fn the_own_crashes_directory_of_afl_comes_alone() {
    let found = collect_afl_crashes(AflDir {
        crashes: Some(vec![
            file("o/crashes/id:000000,sig:11"),
            file("o/crashes/README.txt"),
            file("o/crashes/id-000001"),
            dir("o/crashes/id:dir"),
            file("o/crashes/identity"),
        ]),
        nodes: vec![Node {
            is_dir: true,
            crashes: Some(vec![file("o/main/crashes/id:000002")]),
            entries: vec![],
        }],
    });
    assert_eq!(
        found,
        vec!["o/crashes/id:000000,sig:11", "o/crashes/id-000001", "o/crashes/identity"]
    );
}

#[test]
fn the_crashes_of_afl_nodes_are_collected() {
    let found = collect_afl_crashes(AflDir {
        crashes: None,
        nodes: vec![
            Node {
                is_dir: true,
                crashes: None,
                entries: vec![
                    node_entry("queue", true, vec![file("o/a/queue/id:0")]),
                    node_entry("crashes0", true, vec![file("o/a/crashes0/id:1"), file("o/a/crashes0/x")]),
                    node_entry("crashes1", false, vec![file("o/a/crashes1/id:2")]),
                ],
            },
            Node { is_dir: false, crashes: Some(vec![file("o/b/crashes/id:3")]), entries: vec![] },
            Node {
                is_dir: true,
                crashes: Some(vec![file("o/c/crashes/id:4")]),
                entries: vec![],
            },
        ],
    });
    assert_eq!(found, vec!["o/a/crashes0/id:1", "o/c/crashes/id:4"]);
}

#[test]
fn a_listed_crashes_directory_of_a_node_counts_again() {
    let found = collect_afl_crashes(AflDir {
        crashes: None,
        nodes: vec![Node {
            is_dir: true,
            crashes: Some(vec![file("o/a/crashes/id:0")]),
            entries: vec![node_entry("crashes", true, vec![file("o/a/crashes/id:0")])],
        }],
    });
    assert_eq!(found, vec!["o/a/crashes/id:0", "o/a/crashes/id:0"]);
}

#[test]
fn names_of_crashes_directories() {
    assert!(is_crashes_name("crashes"));
    assert!(is_crashes_name("crashes12"));
    assert!(!is_crashes_name("crash"));
    assert!(!is_crashes_name("old_crashes"));
}

#[test]
fn the_own_cmdline_comes_first() {
    let own = Some(" ./target\t-x \n @@\n".to_string());
    let nodes = vec![cmdline(true, Some("./other"))];
    let args = vec!["./target".to_string(), "-x".to_string(), "@@".to_string()];
    assert_eq!(read_afl_cmdline(&own, &nodes), Some(args));
}

#[test]
fn the_first_node_with_a_cmdline_comes_next() {
    let nodes = vec![
        cmdline(true, None),
        cmdline(true, Some(" \n\t ")),
        cmdline(false, Some("./file")),
        cmdline(true, Some("./target\u{a0}@@")),
        cmdline(true, Some("./late")),
    ];
    let args = vec!["./target".to_string(), "@@".to_string()];
    assert_eq!(read_afl_cmdline(&Some(String::new()), &nodes), Some(args.clone()));
    assert_eq!(read_afl_cmdline(&None, &nodes), Some(args));
}

#[test]
fn without_a_cmdline_there_is_none() {
    assert_eq!(read_afl_cmdline(&None, &vec![]), None);
    assert_eq!(read_afl_cmdline(&Some("  ".to_string()), &vec![cmdline(true, None)]), None);
}

//! From parsed reports to the mapping of every crash.
use std::collections::HashMap;

use casr_cluster_map::cluster::{cluster, find_cluster, Cluster, ClusterError};
use casr_cluster_map::group::{group_by_marks, group_by_stacktrace, ParsedReport};
use casr_cluster_map::mapping::{
    cluster_table, map_crashes, map_equal_crashes, map_lone_crashes, sort_mappings, ClusterMapResult,
    CrashMapping,
};
use casr_cluster_map::plan::{cluster_and_map, keep_parsed, plan_clustering, Plan, ReadReport};
use casr_cluster_map::report::{ReportInfo, StacktraceError};
use casr_cluster_map::stacktrace::{equal_places, equal_traces, DebugInfo, Frame};

fn at(file: &str, line: u64) -> Frame {
    Frame {
        address: line,
        function: String::new(),
        module: String::new(),
        offset: 0,
        debug: DebugInfo { file: file.to_string(), line, column: 0 },
    }
}

fn in_module(module: &str, offset: u64, address: u64) -> Frame {
    Frame {
        address,
        function: String::new(),
        module: module.to_string(),
        offset,
        debug: DebugInfo { file: String::new(), line: 0, column: 0 },
    }
}

fn trace(file: &str, lines: &[u64]) -> Vec<Frame> {
    lines.iter().map(|l| at(file, *l)).collect()
}

fn parsed(crash: &str, frames: Vec<Frame>) -> ParsedReport {
    ParsedReport { crash: crash.to_string(), report: format!("{crash}.casrep"), frames }
}

fn info(crash: &str, frames: Vec<Frame>) -> ReportInfo {
    ReportInfo { report: format!("{crash}.casrep"), frames, crashline: String::new() }
}

fn mapping(crash: &str, id: usize, representative: Option<&str>) -> CrashMapping {
    CrashMapping {
        crash: crash.to_string(),
        cluster_id: id,
        is_representative: representative.is_none(),
        representative: representative.map(|r| r.to_string()),
    }
}

fn row(m: &CrashMapping) -> (&str, usize, bool, Option<&str>) {
    (&m.crash, m.cluster_id, m.is_representative, m.representative.as_deref())
}

fn rows(mappings: &Vec<CrashMapping>) -> Vec<(&str, usize, bool, Option<&str>)> {
    mappings.iter().map(row).collect()
}

fn strings(texts: &[&str]) -> Vec<String> {
    texts.iter().map(|t| t.to_string()).collect()
}

fn counts(r: &ClusterMapResult) -> (usize, usize, usize) {
    (r.total_crashes, r.unique_stacktraces, r.num_clusters)
}

#[test]
fn frames_agree_in_the_best_that_is_known_of_both() {
    assert!(at("a.c", 1).same(&at("a.c", 1)));
    assert!(!at("a.c", 1).same(&at("a.c", 2)));
    assert!(!at("a.c", 1).same(&at("b.c", 1)));
    assert!(in_module("m", 4, 1).same(&in_module("m", 4, 2)));
    assert!(!in_module("m", 4, 1).same(&in_module("m", 5, 1)));
    assert!(!in_module("m", 4, 1).same(&in_module("n", 4, 1)));
    assert!(in_module("m", 0, 7).same(&in_module("n", 0, 7)));
    assert!(at("a.c", 7).same(&in_module("m", 4, 7)));
    assert!(!at("a.c", 7).same(&in_module("m", 4, 8)));
}

#[test]
fn traces_agree_frame_by_frame() {
    assert!(equal_traces(&trace("a.c", &[1, 2]), &trace("a.c", &[1, 2])));
    assert!(!equal_traces(&trace("a.c", &[1, 2]), &trace("a.c", &[1])));
    assert!(!equal_traces(&trace("a.c", &[1, 2]), &trace("a.c", &[1, 3])));
    assert!(equal_traces(&vec![], &vec![]));
}

#[test]
fn reports_with_the_same_stack_trace_form_a_group() {
    let reports = vec![
        parsed("a", trace("a.c", &[1])),
        parsed("b", trace("b.c", &[1])),
        parsed("c", trace("a.c", &[1])),
        parsed("d", trace("c.c", &[1])),
        parsed("e", trace("b.c", &[1])),
        parsed("f", trace("a.c", &[1])),
    ];
    let groups = group_by_stacktrace(&reports);
    let expected: HashMap<usize, Vec<usize>> =
        [(0, vec![0, 2, 5]), (1, vec![1, 4]), (3, vec![3])].into();
    assert_eq!(groups, expected);
    assert_eq!(group_by_stacktrace(&vec![]), HashMap::new());
}

#[test]
fn marks_decide_what_leads_a_group() {
    let bridge = vec![in_module("m", 4, 7)];
    let reports = vec![
        parsed("a", trace("a.c", &[7])),
        parsed("b", bridge),
        parsed("c", vec![in_module("m", 4, 9)]),
    ];
    let expected: HashMap<usize, Vec<usize>> = [(0, vec![0]), (1, vec![1, 2])].into();
    assert_eq!(group_by_marks(&reports, &vec![true, true, false]), expected);
    let expected: HashMap<usize, Vec<usize>> = [(0, vec![0, 1]), (2, vec![2])].into();
    assert_eq!(group_by_marks(&reports, &vec![true, false, true]), expected);
}

#[test]
fn traces_that_agree_at_different_places_are_grouped_too() {
    let reports = vec![
        parsed("a", trace("a.c", &[7])),
        parsed("b", vec![in_module("m", 4, 7)]),
        parsed("c", vec![in_module("m", 4, 9)]),
        parsed("d", trace("a.c", &[7])),
    ];
    let expected: HashMap<usize, Vec<usize>> = [(0, vec![0, 1, 3]), (2, vec![2])].into();
    assert_eq!(group_by_stacktrace(&reports), expected);
}

#[test]
fn traces_may_have_the_same_places() {
    assert!(equal_places(&trace("a.c", &[1, 2]), &trace("a.c", &[1, 2])));
    assert!(!equal_places(&trace("a.c", &[1, 2]), &trace("a.c", &[1])));
    assert!(!equal_places(&trace("a.c", &[7]), &vec![in_module("m", 4, 7)]));
    assert!(equal_places(&vec![in_module("m", 4, 7)], &vec![in_module("m", 4, 8)]));
    assert!(!equal_places(&vec![in_module("m", 4, 7)], &vec![in_module("m", 5, 7)]));
    assert!(!equal_places(&vec![in_module("m", 4, 7)], &vec![in_module("m", 0, 7)]));
    assert!(equal_places(&vec![in_module("m", 0, 7)], &vec![in_module("", 3, 7)]));
}

#[test]
fn unrelated_reports_are_numbered_in_order() {
    let infos = vec![
        info("c", trace("a.c", &[1, 2])),
        info("a", trace("b.c", &[1])),
        info("b", trace("c.c", &[1, 2, 3])),
    ];
    let clusters = cluster(infos).unwrap();
    assert_eq!(clusters.len(), 3);
    for (report, number) in [("c.casrep", 1), ("a.casrep", 2), ("b.casrep", 3)] {
        assert_eq!(find_cluster(&clusters, &report.to_string()), number);
    }
}

#[test]
fn lone_reports_are_numbered_before_merged_ones() {
    let infos = vec![
        info("a", trace("a.c", &[1, 2, 3, 4, 5])),
        info("b", trace("a.c", &[1, 2, 3, 4, 6])),
        info("c", trace("c.c", &[1])),
    ];
    let clusters = cluster(infos).unwrap();
    assert_eq!(find_cluster(&clusters, &"c.casrep".to_string()), 1);
    assert_eq!(find_cluster(&clusters, &"a.casrep".to_string()), 2);
    assert_eq!(find_cluster(&clusters, &"b.casrep".to_string()), 2);
}

#[test]
fn entries_are_sorted_by_crash_name_and_stay_in_order() {
    let sorted = sort_mappings(vec![
        mapping("b", 1, None),
        mapping("a", 1, None),
        mapping("b", 2, Some("x")),
        mapping("", 3, None),
        mapping("B", 4, None),
        mapping("ab", 5, None),
    ]);
    assert_eq!(
        rows(&sorted),
        vec![
            ("", 3, true, None),
            ("B", 4, true, None),
            ("a", 1, true, None),
            ("ab", 5, true, None),
            ("b", 1, true, None),
            ("b", 2, false, Some("x")),
        ]
    );
}

#[test]
fn the_table_holds_the_crashes_of_each_cluster() {
    let table = cluster_table(&vec![
        mapping("b", 2, None),
        mapping("a", 1, None),
        mapping("c", 2, None),
    ]);
    let expected: HashMap<usize, Vec<String>> =
        [(1, strings(&["a"])), (2, strings(&["b", "c"]))].into();
    assert_eq!(table, expected);
}

#[test]
fn a_report_is_found_in_its_cluster() {
    let clusters = vec![
        Cluster { number: 2, reports: strings(&["a.casrep"]) },
        Cluster { number: 1, reports: strings(&["b.casrep", "c.casrep"]) },
    ];
    assert_eq!(find_cluster(&clusters, &"a.casrep".to_string()), 2);
    assert_eq!(find_cluster(&clusters, &"c.casrep".to_string()), 1);
    assert_eq!(find_cluster(&clusters, &"unknown".to_string()), 1);
}

#[test]
fn similar_stack_traces_share_a_cluster() {
    let infos = vec![
        info("a", trace("a.c", &[1, 2, 3, 4, 5])),
        info("b", trace("b.c", &[1, 2, 3, 4, 5])),
        info("c", trace("a.c", &[1, 2, 3, 4, 6])),
    ];
    let mut clusters = cluster(infos).unwrap();
    clusters.sort_by_key(|c| c.number);
    let mut held: Vec<Vec<String>> = clusters.iter().map(|c| c.reports.clone()).collect();
    held.sort();
    assert_eq!(held, vec![strings(&["a.casrep", "c.casrep"]), strings(&["b.casrep"])]);
    assert_eq!(clusters.iter().map(|c| c.number).collect::<Vec<_>>(), vec![1, 2]);
}

#[test]
fn a_clustering_needs_two_reports() {
    assert_eq!(cluster(vec![]).unwrap_err(), ClusterError::NotEnoughReports);
    let one = || vec![info("a", trace("a.c", &[1]))];
    assert_eq!(cluster(one()).unwrap_err(), ClusterError::NotEnoughReports);
    let groups: HashMap<usize, Vec<usize>> = [(0, vec![0])].into();
    let reports = vec![parsed("a", trace("a.c", &[1]))];
    let error = cluster_and_map(1, &reports, &groups, one()).unwrap_err();
    assert_eq!(error, ClusterError::NotEnoughReports);
}

#[test]
fn reports_without_a_stack_trace_are_left_out() {
    let read = vec![
        ReadReport {
            crash: "a".to_string(),
            report: "a.casrep".to_string(),
            trace: Ok(trace("a.c", &[1])),
        },
        ReadReport {
            crash: "b".to_string(),
            report: "b.casrep".to_string(),
            trace: Err(StacktraceError::LeadingRepetition),
        },
        ReadReport {
            crash: "c".to_string(),
            report: "c.casrep".to_string(),
            trace: Ok(trace("c.c", &[2, 3])),
        },
    ];
    let kept = keep_parsed(read);
    let names: Vec<(&str, &str, usize)> =
        kept.iter().map(|r| (r.crash.as_str(), r.report.as_str(), r.frames.len())).collect();
    assert_eq!(names, vec![("a", "a.casrep", 1), ("c", "c.casrep", 2)]);
}

#[test]
fn a_lone_report_makes_a_single_cluster() {
    let reports = vec![parsed("a", trace("a.c", &[1]))];
    let Plan::Done(r) = plan_clustering(9, &reports) else { panic!("not done") };
    assert_eq!(counts(&r), (9, 1, 1));
    assert_eq!(rows(&r.mappings), vec![("a", 1, true, None)]);
    assert_eq!(r.clusters, [(1, strings(&["a"]))].into());
}

#[test]
fn no_report_makes_an_empty_cluster() {
    let Plan::Done(r) = plan_clustering(3, &vec![]) else { panic!("not done") };
    assert_eq!(counts(&r), (3, 0, 1));
    assert!(r.mappings.is_empty());
    assert_eq!(r.clusters, [(1, vec![])].into());
}

#[test]
fn lone_crashes_keep_their_order() {
    let reports = vec![parsed("b", vec![]), parsed("a", vec![])];
    let r = map_lone_crashes(2, &reports);
    assert_eq!(rows(&r.mappings), vec![("b", 1, true, None), ("a", 1, true, None)]);
    assert_eq!(r.clusters, [(1, strings(&["b", "a"]))].into());
}

#[test]
fn one_stack_trace_makes_a_single_cluster() {
    let reports = vec![
        parsed("m", trace("a.c", &[1])),
        parsed("z", trace("a.c", &[1])),
        parsed("a", trace("a.c", &[1])),
    ];
    let Plan::Done(r) = plan_clustering(4, &reports) else { panic!("not done") };
    assert_eq!(counts(&r), (4, 1, 1));
    assert_eq!(
        rows(&r.mappings),
        vec![("a", 1, false, Some("m")), ("m", 1, true, None), ("z", 1, false, Some("m"))]
    );
    assert_eq!(r.clusters, [(1, strings(&["a", "m", "z"]))].into());
}

#[test]
fn equal_crashes_may_be_none() {
    let r = map_equal_crashes(5, 0, &vec![]);
    assert_eq!(counts(&r), (5, 0, 1));
    assert!(r.mappings.is_empty());
    assert_eq!(r.clusters, [(1, vec![])].into());
}

#[test]
fn every_crash_is_mapped_to_the_cluster_of_its_representative() {
    let reports = vec![
        parsed("crash-d", trace("a.c", &[1, 2, 3, 4, 5])),
        parsed("crash-a", trace("b.c", &[1, 2, 3, 4, 5])),
        parsed("crash-c", trace("a.c", &[1, 2, 3, 4, 5])),
        parsed("crash-b", trace("b.c", &[1, 2, 3, 4, 5])),
        parsed("crash-e", trace("a.c", &[1, 2, 3, 4, 6])),
    ];
    let Plan::Cluster(groups) = plan_clustering(6, &reports) else { panic!("done") };
    let expected: HashMap<usize, Vec<usize>> =
        [(0, vec![0, 2]), (1, vec![1, 3]), (4, vec![4])].into();
    assert_eq!(groups, expected);
    let infos = vec![
        info("crash-a", trace("b.c", &[1, 2, 3, 4, 5])),
        info("crash-d", trace("a.c", &[1, 2, 3, 4, 5])),
        info("crash-e", trace("a.c", &[1, 2, 3, 4, 6])),
    ];
    let (r, clusters) = cluster_and_map(6, &reports, &groups, infos).unwrap();
    assert_eq!(counts(&r), (6, 3, 2));
    let a = find_cluster(&clusters, &"crash-a.casrep".to_string());
    let d = find_cluster(&clusters, &"crash-d.casrep".to_string());
    assert_ne!(a, d);
    assert_eq!(
        rows(&r.mappings),
        vec![
            ("crash-a", a, true, None),
            ("crash-b", a, false, Some("crash-a")),
            ("crash-c", d, false, Some("crash-d")),
            ("crash-d", d, true, None),
            ("crash-e", d, true, None),
        ]
    );
    let mut in_d = r.clusters[&d].clone();
    in_d.sort();
    assert_eq!(in_d, strings(&["crash-c", "crash-d", "crash-e"]));
    assert_eq!(r.clusters[&a].len(), 2);
    assert_eq!(r.clusters.len(), 2);
    assert_eq!(r.mappings.iter().filter(|m| m.is_representative).count(), r.unique_stacktraces);
}

#[test]
fn a_representative_outside_the_clusters_counts_to_the_first() {
    let reports = vec![parsed("a", trace("a.c", &[1])), parsed("b", trace("b.c", &[1]))];
    let groups: HashMap<usize, Vec<usize>> = [(0, vec![0]), (1, vec![1])].into();
    let clusters = vec![Cluster { number: 3, reports: strings(&["b.casrep"]) }];
    let r = map_crashes(2, &reports, &groups, &clusters);
    assert_eq!(counts(&r), (2, 2, 1));
    assert_eq!(rows(&r.mappings), vec![("a", 1, true, None), ("b", 3, true, None)]);
    assert_eq!(r.clusters, [(1, strings(&["a"])), (3, strings(&["b"]))].into());
}

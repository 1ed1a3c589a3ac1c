//! Clusters of reports with similar stack traces.
use std::path::PathBuf;

use libcasr::stacktrace::{DebugInfo, StacktraceEntry};
use vstd::prelude::*;

use crate::report::ReportInfo;
use crate::stacktrace;
use crate::stacktrace::{Frame, FrameView};
use crate::text;

verus! {

/// A cluster of reports.
#[derive(Debug)]
pub struct Cluster {
    /// Number of the cluster.
    pub number: usize,
    /// File names of its reports.
    pub reports: Vec<String>,
}

/// The model of [`Cluster`].
#[verifier::ext_equal]
pub struct ClusterView {
    pub number: usize,
    pub reports: Seq<Seq<char>>,
}

impl View for Cluster {
    type V = ClusterView;

    open spec fn view(&self) -> ClusterView {
        ClusterView { number: self.number, reports: text::texts(self.reports@) }
    }
}

/// The models of the clusters.
pub open spec fn clusters_view(clusters: Seq<Cluster>) -> Seq<ClusterView> {
    clusters.map_values(|c: Cluster| c@)
}

/// The file names of the reports.
pub open spec fn info_names(infos: Seq<ReportInfo>) -> Seq<Seq<char>> {
    infos.map_values(|i: ReportInfo| i.report@)
}

/// The names among the first `n` that `numbers` puts into cluster `number`, in order.
pub open spec fn numbered(
    names: Seq<Seq<char>>,
    numbers: Seq<usize>,
    number: usize,
    n: int,
) -> Seq<Seq<char>>
    decreases n,
{
    if n <= 0 {
        Seq::empty()
    } else if numbers[n - 1] == number {
        numbered(names, numbers, number, n - 1).push(names[n - 1])
    } else {
        numbered(names, numbers, number, n - 1)
    }
}

/// `clusters` are the clusters that `numbers` makes of `names`: they are numbered without a gap
/// from the number after `offset`, none is empty, and each holds its names in order.
pub open spec fn is_clustering(
    names: Seq<Seq<char>>,
    numbers: Seq<usize>,
    offset: usize,
    clusters: Seq<ClusterView>,
) -> bool {
    &&& numbers.len() == names.len()
    &&& forall|i: int|
        0 <= i < numbers.len() ==> offset < #[trigger] numbers[i] <= offset + clusters.len()
    &&& forall|c: int|
        0 <= c < clusters.len() ==> {
            &&& offset < (#[trigger] clusters[c]).number <= offset + clusters.len()
            &&& clusters[c].reports.len() > 0
            &&& clusters[c].reports == numbered(
                names,
                numbers,
                clusters[c].number,
                names.len() as int,
            )
        }
    &&& forall|c: int, d: int|
        0 <= c < d < clusters.len() ==> (#[trigger] clusters[c]).number != (
        #[trigger] clusters[d]).number
}

/// The stack traces of the reports.
pub open spec fn info_traces(infos: Seq<ReportInfo>) -> Seq<Seq<FrameView>> {
    infos.map_values(|i: ReportInfo| stacktrace::frames_view(i.frames@))
}

/// No other report has the number of report `i`.
pub open spec fn is_alone(numbers: Seq<usize>, i: int) -> bool {
    forall|j: int| 0 <= j < numbers.len() && j != i ==> #[trigger] numbers[j] != numbers[i]
}

/// The reports in `s` belong together: any two of them have close stack traces, and none shares a
/// frame with a report outside.
pub open spec fn belong_together(traces: Seq<Seq<FrameView>>, s: Set<int>) -> bool {
    &&& forall|i: int| #[trigger] s.contains(i) ==> 0 <= i < traces.len()
    &&& forall|i: int, j: int| #[trigger]
        s.contains(i) && #[trigger] s.contains(j) && i < j ==> stacktrace::are_close(
            traces[i],
            traces[j],
        )
    &&& forall|i: int, k: int|
        #![trigger s.contains(i), traces[k]]
        s.contains(i) && 0 <= k < traces.len() && !s.contains(k) ==> !stacktrace::share_a_frame(
            traces[i],
            traces[k],
        )
}

/// `numbers` goes by the stack traces: reports that share no frame or are far apart have different
/// numbers, reports that belong together have the same, and the reports that are alone in their
/// clusters have the least numbers, in order.
pub open spec fn goes_by_frames(traces: Seq<Seq<FrameView>>, numbers: Seq<usize>) -> bool {
    &&& forall|i: int, j: int|
        0 <= i < j < numbers.len() && !stacktrace::share_a_frame(
            #[trigger] traces[i],
            #[trigger] traces[j],
        ) ==> numbers[i] != numbers[j]
    &&& forall|i: int, j: int|
        0 <= i < j < numbers.len() && stacktrace::are_far(
            #[trigger] traces[i],
            #[trigger] traces[j],
        ) ==> numbers[i] != numbers[j]
    &&& forall|s: Set<int>, i: int, j: int| #[trigger]
        belong_together(traces, s) && #[trigger] s.contains(i) && #[trigger] s.contains(j)
            ==> numbers[i] == numbers[j]
    &&& forall|i: int, j: int|
        0 <= i < numbers.len() && 0 <= j < numbers.len() && i != j && is_alone(numbers, i) && (
        is_alone(numbers, j) ==> i < j) ==> #[trigger] numbers[i] < #[trigger] numbers[j]
}

/// `clusters` are the clusters of reports with these names and stack traces, for some assignment of
/// numbers that goes by the stack traces.
pub open spec fn are_clusters_of(
    names: Seq<Seq<char>>,
    traces: Seq<Seq<FrameView>>,
    offset: usize,
    clusters: Seq<ClusterView>,
) -> bool {
    exists|numbers: Seq<usize>| #[trigger]
        is_clustering(names, numbers, offset, clusters) && goes_by_frames(traces, numbers)
}

/// The clusters that `libcasr::cluster::Cluster::cluster_reports` makes of the reports, without
/// deduplication by crash line, in no particular order.
///
/// That function gives each report the number of a cluster, from one on and without a gap, adds
/// `offset` to it, and collects the reports by number. It has no way to fail. Clusters of one report
/// are numbered before those that were merged, in the order of the reports.
///
/// Clusters are merged while their most different members are less than 0.3 apart, the closest
/// first. The similarity of two stack traces is the greatest sum, over frames that agree one after
/// the other, of weights that fall by four percent from frame to frame and more for frames at
/// different depths, in relation to the sum of the weights of the shorter trace. Hence it is zero
/// without a common frame. It is at least 0.795 for close traces, so reports that belong together
/// are merged with each other before any of them is with another, and at most 0.618 for traces that
/// are far apart. The weights come from an exponential function whose precision the standard library
/// leaves open, so which reports share a cluster is said only where an error of five percent in each
/// weight makes no difference. A stack trace without frames gives a similarity that is no number, on
/// which it can panic.
#[verifier::external_body]
fn cluster_reports(infos: Vec<ReportInfo>, offset: usize, dedup: bool) -> (r: Result<
    Vec<Cluster>,
    libcasr::error::Error,
>)
    requires
        !dedup,
        infos@.len() >= 2,
        offset + infos@.len() <= usize::MAX,
        forall|i: int| 0 <= i < infos@.len() ==> (#[trigger] infos@[i]).frames@.len() > 0,
    ensures
        r is Ok,
        are_clusters_of(
            info_names(infos@),
            info_traces(infos@),
            offset,
            clusters_view(r->Ok_0@),
        ),
{
    let frame = |Frame { address, function, module, offset, debug: d }| StacktraceEntry {
        address, function, module, offset,
        debug: DebugInfo { file: d.file, line: d.line, column: d.column },
    };
    let raw: Vec<_> = infos.into_iter().map(|i| (
        PathBuf::from(i.report),
        (i.frames.into_iter().map(frame).collect(), i.crashline),
    )).collect();
    libcasr::cluster::Cluster::cluster_reports(&raw, offset, dedup).map(
        |(clusters, _, _)| clusters.into_values().map(|c| Cluster {
            number: c.number,
            reports: c.paths().iter().map(|p| p.display().to_string()).collect(),
        }).collect(),
    )
}

/// Why there are no clusters.
#[derive(Debug, Clone, Copy, PartialEq, Eq, Structural)]
pub enum ClusterError {
    /// There are fewer than two reports.
    NotEnoughReports,
    /// The clustering failed.
    Failed,
}

/// The clusters of the reports, numbered from one on without a gap, in no particular order.
pub fn cluster(infos: Vec<ReportInfo>) -> (r: Result<Vec<Cluster>, ClusterError>)
    requires
        forall|i: int| 0 <= i < infos@.len() ==> (#[trigger] infos@[i]).frames@.len() > 0,
    ensures
        infos@.len() < 2 <==> r == Err::<Vec<Cluster>, ClusterError>(
            ClusterError::NotEnoughReports,
        ),
        infos@.len() >= 2 ==> r is Ok && are_clusters_of(
            info_names(infos@),
            info_traces(infos@),
            0,
            clusters_view(r->Ok_0@),
        ),
{
    if infos.len() < 2 {
        return Err(ClusterError::NotEnoughReports);
    }
    match cluster_reports(infos, 0, false) {
        Ok(clusters) => Ok(clusters),
        Err(_) => Err(ClusterError::Failed),
    }
}

/// The number of the last of the clusters that holds the report, and one if none does.
pub open spec fn cluster_of(clusters: Seq<ClusterView>, report: Seq<char>) -> usize
    decreases clusters.len(),
{
    if clusters.len() == 0 {
        1
    } else if clusters.last().reports.contains(report) {
        clusters.last().number
    } else {
        cluster_of(clusters.drop_last(), report)
    }
}

/// The number of the last of the clusters that holds the report, and one if none does.
pub fn find_cluster(clusters: &Vec<Cluster>, report: &String) -> (number: usize)
    ensures
        number == cluster_of(clusters_view(clusters@), report@),
{
    let ghost all = clusters_view(clusters@);
    let mut i: usize = clusters.len();
    assert(all.take(i as int) == all);
    while i > 0
        invariant
            i <= clusters.len(),
            all == clusters_view(clusters@),
            cluster_of(all.take(i as int), report@) == cluster_of(all, report@),
        decreases i,
    {
        assert(all.take(i as int).last() == clusters[i - 1]@);
        assert(all.take(i as int).drop_last() == all.take(i - 1));
        if text::holds(&clusters[i - 1].reports, report) {
            return clusters[i - 1].number;
        }
        i -= 1;
    }
    1
}

proof fn lemma_numbered(
    names: Seq<Seq<char>>,
    numbers: Seq<usize>,
    number: usize,
    n: int,
    name: Seq<char>,
)
    requires
        0 <= n <= names.len(),
        numbers.len() == names.len(),
    ensures
        numbered(names, numbers, number, n).contains(name) <==> exists|j: int|
            0 <= j < n && numbers[j] == number && #[trigger] names[j] == name,
    decreases n,
{
    if n > 0 {
        lemma_numbered(names, numbers, number, n - 1, name);
        let before = numbered(names, numbers, number, n - 1);
        let after = numbered(names, numbers, number, n);
        if numbers[n - 1] == number {
            assert(after[after.len() - 1] == names[n - 1]);
            if before.contains(name) {
                let k = choose|k: int| 0 <= k < before.len() && before[k] == name;
                assert(after[k] == name);
            }
            if after.contains(name) && name != names[n - 1] {
                let k = choose|k: int| 0 <= k < after.len() && after[k] == name;
                assert(before[k] == name);
            }
        }
    }
}

proof fn lemma_every_number_has_a_cluster(
    names: Seq<Seq<char>>,
    numbers: Seq<usize>,
    offset: usize,
    clusters: Seq<ClusterView>,
    number: usize,
) -> (c: int)
    requires
        is_clustering(names, numbers, offset, clusters),
        offset < number <= offset + clusters.len(),
    ensures
        0 <= c < clusters.len(),
        clusters[c].number == number,
{
    let used = clusters.map_values(|c: ClusterView| c.number as int);
    let range = vstd::set_lib::set_int_range(offset + 1, offset + clusters.len() + 1);
    vstd::set_lib::lemma_int_range(offset + 1, offset + clusters.len() + 1);
    assert(used.no_duplicates()) by {
        assert forall|i: int, j: int|
            0 <= i < used.len() && 0 <= j < used.len() && i != j implies used[i] != used[j] by {
            if i < j {
                assert(clusters[i].number != clusters[j].number);
            } else {
                assert(clusters[j].number != clusters[i].number);
            }
        }
    }
    used.unique_seq_to_set();
    assert(used.to_set().subset_of(range)) by {
        assert forall|x: int| used.to_set().contains(x) implies range.contains(x) by {
            let i = choose|i: int| 0 <= i < used.len() && used[i] == x;
            assert(offset < clusters[i].number);
        }
    }
    vstd::set_lib::lemma_subset_equality(used.to_set(), range);
    assert(used.to_set().contains(number as int));
    let c = choose|c: int| 0 <= c < used.len() && used[c] == number as int;
    c
}

proof fn lemma_cluster_of(clusters: Seq<ClusterView>, report: Seq<char>, number: usize, at: int)
    requires
        0 <= at < clusters.len(),
        clusters[at].reports.contains(report),
        forall|c: int|
            0 <= c < clusters.len() && (#[trigger] clusters[c]).reports.contains(report)
                ==> clusters[c].number == number,
    ensures
        cluster_of(clusters, report) == number,
    decreases clusters.len(),
{
    if !clusters.last().reports.contains(report) {
        let rest = clusters.drop_last();
        assert(rest[at] == clusters[at]);
        assert forall|c: int|
            0 <= c < rest.len() && (#[trigger] rest[c]).reports.contains(
                report,
            ) implies rest[c].number == number by {
            assert(rest[c] == clusters[c]);
        }
        lemma_cluster_of(rest, report, number, at);
    } else {
        assert(clusters[clusters.len() - 1] == clusters.last());
    }
}

/// Where no two reports have the same name, each report that was clustered is found in the cluster
/// that it was put into.
pub proof fn law_a_clustered_report_is_found(
    names: Seq<Seq<char>>,
    numbers: Seq<usize>,
    offset: usize,
    clusters: Seq<ClusterView>,
    i: int,
)
    requires
        is_clustering(names, numbers, offset, clusters),
        names.no_duplicates(),
        0 <= i < names.len(),
    ensures
        cluster_of(clusters, names[i]) == numbers[i],
{
    let n = names.len() as int;
    let at = lemma_every_number_has_a_cluster(names, numbers, offset, clusters, numbers[i]);
    lemma_numbered(names, numbers, numbers[i], n, names[i]);
    assert(clusters[at].reports.contains(names[i]));
    assert forall|c: int|
        0 <= c < clusters.len() && (#[trigger] clusters[c]).reports.contains(
            names[i],
        ) implies clusters[c].number == numbers[i] by {
        lemma_numbered(names, numbers, clusters[c].number, n, names[i]);
        let j = choose|j: int|
            0 <= j < n && numbers[j] == clusters[c].number && #[trigger] names[j] == names[i];
        assert(j == i);
    }
    lemma_cluster_of(clusters, names[i], numbers[i], at);
}

/// A report that was not clustered counts to the first cluster.
pub proof fn law_an_unknown_report_counts_to_the_first_cluster(
    clusters: Seq<ClusterView>,
    report: Seq<char>,
)
    requires
        forall|c: int|
            0 <= c < clusters.len() ==> !(#[trigger] clusters[c]).reports.contains(report),
    ensures
        cluster_of(clusters, report) == 1,
    decreases clusters.len(),
{
    if clusters.len() > 0 {
        let rest = clusters.drop_last();
        assert(!clusters[clusters.len() - 1].reports.contains(report));
        assert forall|c: int| 0 <= c < rest.len() implies !(
        #[trigger] rest[c]).reports.contains(report) by {
            assert(rest[c] == clusters[c]);
        }
        law_an_unknown_report_counts_to_the_first_cluster(rest, report);
    }
}

proof fn lemma_cluster_of_is_a_number(clusters: Seq<ClusterView>, report: Seq<char>)
    ensures
        cluster_of(clusters, report) == 1 || exists|c: int|
            0 <= c < clusters.len() && cluster_of(clusters, report) == (
            #[trigger] clusters[c]).number,
    decreases clusters.len(),
{
    if clusters.len() > 0 {
        if clusters.last().reports.contains(report) {
            assert(clusters[clusters.len() - 1] == clusters.last());
        } else {
            let rest = clusters.drop_last();
            lemma_cluster_of_is_a_number(rest, report);
            if cluster_of(rest, report) != 1 {
                let c = choose|c: int|
                    0 <= c < rest.len() && cluster_of(rest, report) == (#[trigger] rest[c]).number;
                assert(clusters[c] == rest[c]);
            }
        }
    }
}

/// Any report, clustered or not, counts to a cluster whose number is not above the number of
/// clusters.
pub proof fn law_cluster_numbers_are_in_range(
    names: Seq<Seq<char>>,
    traces: Seq<Seq<FrameView>>,
    clusters: Seq<ClusterView>,
    report: Seq<char>,
)
    requires
        names.len() > 0,
        are_clusters_of(names, traces, 0, clusters),
    ensures
        1 <= cluster_of(clusters, report) <= clusters.len(),
{
    let numbers = choose|numbers: Seq<usize>| #[trigger]
        is_clustering(names, numbers, 0, clusters) && goes_by_frames(traces, numbers);
    assert(0 < numbers[0] <= clusters.len());
    lemma_cluster_of_is_a_number(clusters, report);
}

/// Where no two reports have the same name, each number from one to the number of clusters is that
/// of the cluster of some report.
pub proof fn law_every_cluster_is_that_of_a_report(
    names: Seq<Seq<char>>,
    traces: Seq<Seq<FrameView>>,
    clusters: Seq<ClusterView>,
    number: usize,
)
    requires
        are_clusters_of(names, traces, 0, clusters),
        names.no_duplicates(),
        1 <= number <= clusters.len(),
    ensures
        exists|i: int| 0 <= i < names.len() && cluster_of(clusters, #[trigger] names[i]) == number,
{
    let n = names.len() as int;
    let numbers = choose|numbers: Seq<usize>| #[trigger]
        is_clustering(names, numbers, 0, clusters) && goes_by_frames(traces, numbers);
    let c = lemma_every_number_has_a_cluster(names, numbers, 0, clusters, number);
    let first = clusters[c].reports[0];
    assert(clusters[c].reports.contains(first));
    lemma_numbered(names, numbers, number, n, first);
    let i = choose|i: int| 0 <= i < n && numbers[i] == number && #[trigger] names[i] == first;
    law_a_clustered_report_is_found(names, numbers, 0, clusters, i);
}

/// Where no two reports have the same name, reports that share no frame are in different clusters.
pub proof fn law_unrelated_reports_are_in_different_clusters(
    names: Seq<Seq<char>>,
    traces: Seq<Seq<FrameView>>,
    clusters: Seq<ClusterView>,
    i: int,
    j: int,
)
    requires
        are_clusters_of(names, traces, 0, clusters),
        names.no_duplicates(),
        0 <= i < j < names.len(),
        !stacktrace::share_a_frame(traces[i], traces[j]),
    ensures
        cluster_of(clusters, names[i]) != cluster_of(clusters, names[j]),
{
    let numbers = choose|numbers: Seq<usize>| #[trigger]
        is_clustering(names, numbers, 0, clusters) && goes_by_frames(traces, numbers);
    law_a_clustered_report_is_found(names, numbers, 0, clusters, i);
    law_a_clustered_report_is_found(names, numbers, 0, clusters, j);
}

/// Where no two reports have the same name and no two share a frame, their clusters are numbered in
/// the order of the reports.
pub proof fn law_unrelated_reports_are_numbered_in_order(
    names: Seq<Seq<char>>,
    traces: Seq<Seq<FrameView>>,
    clusters: Seq<ClusterView>,
    i: int,
    j: int,
)
    requires
        are_clusters_of(names, traces, 0, clusters),
        names.no_duplicates(),
        forall|a: int, b: int|
            0 <= a < b < names.len() ==> !stacktrace::share_a_frame(
                #[trigger] traces[a],
                #[trigger] traces[b],
            ),
        0 <= i < j < names.len(),
    ensures
        cluster_of(clusters, names[i]) < cluster_of(clusters, names[j]),
{
    let numbers = choose|numbers: Seq<usize>| #[trigger]
        is_clustering(names, numbers, 0, clusters) && goes_by_frames(traces, numbers);
    law_a_clustered_report_is_found(names, numbers, 0, clusters, i);
    law_a_clustered_report_is_found(names, numbers, 0, clusters, j);
    assert forall|x: int| 0 <= x < numbers.len() implies is_alone(numbers, x) by {
        assert forall|y: int| 0 <= y < numbers.len() && y != x implies #[trigger] numbers[y]
            != numbers[x] by {
            if x < y {
                assert(!stacktrace::share_a_frame(traces[x], traces[y]));
            } else {
                assert(!stacktrace::share_a_frame(traces[y], traces[x]));
            }
        }
    }
}

/// Similar reports share a cluster: where a set of reports shares no frame with the others, and any
/// two of them, `a` and `b`, agree in their first `agreed(a, b)` frames, which are four fifths of the
/// frames of one of them, all are in one cluster, however many reports there are.
pub proof fn law_similar_reports_share_a_cluster(
    names: Seq<Seq<char>>,
    traces: Seq<Seq<FrameView>>,
    clusters: Seq<ClusterView>,
    similar: Set<int>,
    agreed: spec_fn(int, int) -> int,
    i: int,
    j: int,
)
    requires
        are_clusters_of(names, traces, 0, clusters),
        traces.len() == names.len(),
        names.no_duplicates(),
        forall|a: int| #[trigger] similar.contains(a) ==> 0 <= a < names.len(),
        forall|a: int, b: int| #[trigger]
            similar.contains(a) && #[trigger] similar.contains(b) && a < b ==> 0 <= agreed(a, b)
                <= traces[a].len() && agreed(a, b) <= traces[b].len() && (5 * agreed(a, b) >= 4
                * traces[a].len() || 5 * agreed(a, b) >= 4 * traces[b].len()),
        forall|a: int, b: int, k: int|
            #![trigger similar.contains(a), similar.contains(b), traces[a][k]]
            similar.contains(a) && similar.contains(b) && a < b && 0 <= k < agreed(a, b)
                ==> traces[a][k].same(traces[b][k]),
        forall|a: int, b: int, k: int, l: int|
            #![trigger similar.contains(a), traces[a][k], traces[b][l]]
            similar.contains(a) && 0 <= b < names.len() && !similar.contains(b) && 0 <= k
                < traces[a].len() && 0 <= l < traces[b].len() ==> !traces[a][k].same(traces[b][l]),
        similar.contains(i),
        similar.contains(j),
    ensures
        cluster_of(clusters, names[i]) == cluster_of(clusters, names[j]),
        exists|c: int|
            0 <= c < clusters.len() && (#[trigger] clusters[c]).reports.contains(names[i])
                && clusters[c].reports.contains(names[j]),
{
    assert forall|a: int, b: int| #[trigger]
        similar.contains(a) && #[trigger] similar.contains(b) && a < b implies stacktrace::are_close(
        traces[a],
        traces[b],
    ) by {
        assert(stacktrace::agree_in_first(traces[a], traces[b], agreed(a, b)));
    }
    assert(belong_together(traces, similar));
    lemma_together(names, traces, clusters, similar, i, j);
}

/// Reports share a cluster also where their stack traces differ in a few frames in between: at the
/// indices in `odd`, at most four and at most an eighth of the frames that the shorter has, provided
/// that neither shares a frame with a third report.
pub proof fn law_reports_that_differ_in_few_frames_share_a_cluster(
    names: Seq<Seq<char>>,
    traces: Seq<Seq<FrameView>>,
    clusters: Seq<ClusterView>,
    i: int,
    j: int,
    odd: Set<int>,
)
    requires
        are_clusters_of(names, traces, 0, clusters),
        traces.len() == names.len(),
        names.no_duplicates(),
        0 <= i < j < names.len(),
        odd.finite(),
        odd.len() <= 4,
        8 * odd.len() <= traces[i].len(),
        8 * odd.len() <= traces[j].len(),
        forall|k: int|
            0 <= k < traces[i].len() && k < traces[j].len() && !odd.contains(k) ==> (
            #[trigger] traces[i][k]).same(traces[j][k]),
        forall|b: int, k: int, l: int|
            #![trigger traces[i][k], traces[b][l]]
            0 <= b < names.len() && b != i && b != j && 0 <= k < traces[i].len() && 0 <= l
                < traces[b].len() ==> !traces[i][k].same(traces[b][l]),
        forall|b: int, k: int, l: int|
            #![trigger traces[j][k], traces[b][l]]
            0 <= b < names.len() && b != i && b != j && 0 <= k < traces[j].len() && 0 <= l
                < traces[b].len() ==> !traces[j][k].same(traces[b][l]),
    ensures
        cluster_of(clusters, names[i]) == cluster_of(clusters, names[j]),
{
    let pair = set![i, j];
    assert(stacktrace::agree_but_for(traces[i], traces[j], odd));
    assert(stacktrace::are_close(traces[i], traces[j]));
    assert(belong_together(traces, pair));
    lemma_together(names, traces, clusters, pair, i, j);
}

proof fn lemma_together(
    names: Seq<Seq<char>>,
    traces: Seq<Seq<FrameView>>,
    clusters: Seq<ClusterView>,
    s: Set<int>,
    i: int,
    j: int,
)
    requires
        are_clusters_of(names, traces, 0, clusters),
        traces.len() == names.len(),
        names.no_duplicates(),
        belong_together(traces, s),
        s.contains(i),
        s.contains(j),
    ensures
        cluster_of(clusters, names[i]) == cluster_of(clusters, names[j]),
        exists|c: int|
            0 <= c < clusters.len() && (#[trigger] clusters[c]).reports.contains(names[i])
                && clusters[c].reports.contains(names[j]),
{
    let numbers = choose|numbers: Seq<usize>| #[trigger]
        is_clustering(names, numbers, 0, clusters) && goes_by_frames(traces, numbers);
    assert(numbers[i] == numbers[j]);
    law_a_clustered_report_is_found(names, numbers, 0, clusters, i);
    law_a_clustered_report_is_found(names, numbers, 0, clusters, j);
    let c = lemma_every_number_has_a_cluster(names, numbers, 0, clusters, numbers[i]);
    lemma_numbered(names, numbers, numbers[i], names.len() as int, names[i]);
    lemma_numbered(names, numbers, numbers[i], names.len() as int, names[j]);
    assert(clusters[c].reports.contains(names[i]) && clusters[c].reports.contains(names[j]));
}

/// Reports whose stack traces have little in common are in different clusters: where only the frames
/// at the indices in `odd`, at most twelve and at most half of the frames that either has, agree with
/// a frame of the other.
pub proof fn law_reports_with_little_in_common_are_in_different_clusters(
    names: Seq<Seq<char>>,
    traces: Seq<Seq<FrameView>>,
    clusters: Seq<ClusterView>,
    i: int,
    j: int,
    odd: Set<int>,
)
    requires
        are_clusters_of(names, traces, 0, clusters),
        traces.len() == names.len(),
        names.no_duplicates(),
        0 <= i < j < names.len(),
        odd.finite(),
        odd.len() <= 12,
        2 * odd.len() <= traces[i].len(),
        2 * odd.len() <= traces[j].len(),
        forall|k: int, l: int|
            0 <= k < traces[i].len() && 0 <= l < traces[j].len() && !odd.contains(k) ==> !(
            #[trigger] traces[i][k]).same(#[trigger] traces[j][l]),
    ensures
        cluster_of(clusters, names[i]) != cluster_of(clusters, names[j]),
{
    let numbers = choose|numbers: Seq<usize>| #[trigger]
        is_clustering(names, numbers, 0, clusters) && goes_by_frames(traces, numbers);
    assert(stacktrace::differ_but_for(traces[i], traces[j], odd));
    assert(stacktrace::are_far(traces[i], traces[j]));
    law_a_clustered_report_is_found(names, numbers, 0, clusters, i);
    law_a_clustered_report_is_found(names, numbers, 0, clusters, j);
}

/// The models of reports and clusters hold their names, frames and numbers.
pub proof fn law_the_models_of_reports_and_clusters_are_complete(
    infos: Seq<ReportInfo>,
    clusters: Seq<Cluster>,
)
    ensures
        info_names(infos).len() == infos.len(),
        info_traces(infos).len() == infos.len(),
        clusters_view(clusters).len() == clusters.len(),
        forall|i: int|
            0 <= i < infos.len() ==> #[trigger] info_names(infos)[i] == infos[i].report@,
        forall|i: int, k: int|
            #![trigger info_traces(infos)[i][k]]
            0 <= i < infos.len() ==> info_traces(infos)[i].len() == infos[i].frames@.len() && (0 <= k
                < infos[i].frames@.len() ==> info_traces(infos)[i][k] == infos[i].frames@[k]@),
        forall|c: int|
            0 <= c < clusters.len() ==> (#[trigger] clusters_view(clusters)[c]).number
                == clusters[c].number && clusters_view(clusters)[c].reports.len()
                == clusters[c].reports@.len(),
        forall|c: int, k: int|
            #![trigger clusters_view(clusters)[c].reports[k]]
            0 <= c < clusters.len() && 0 <= k < clusters[c].reports@.len() ==> clusters_view(
                clusters,
            )[c].reports[k] == clusters[c].reports@[k]@,
{
}

/// How many of the numbers are this one.
pub open spec fn occurrences(numbers: Seq<usize>, number: usize) -> nat {
    numbers.filter(|n: usize| n == number).len()
}

proof fn lemma_numbered_len(names: Seq<Seq<char>>, numbers: Seq<usize>, number: usize, n: int)
    requires
        0 <= n <= names.len(),
        numbers.len() == names.len(),
    ensures
        numbered(names, numbers, number, n).len() == occurrences(numbers.take(n), number),
    decreases n,
{
    reveal(Seq::filter);
    if n > 0 {
        lemma_numbered_len(names, numbers, number, n - 1);
        assert(numbers.take(n).drop_last() =~= numbers.take(n - 1));
    }
}

/// Every report is in a cluster and none is in two: the reports can be given numbers, from one to
/// the number of clusters, such that the cluster of each number holds as many names as there are
/// reports with that number, the name of each such report, and no other. No two clusters have the
/// same number.
pub proof fn law_clusters_hold_every_report_once(
    names: Seq<Seq<char>>,
    traces: Seq<Seq<FrameView>>,
    clusters: Seq<ClusterView>,
)
    requires
        are_clusters_of(names, traces, 0, clusters),
    ensures
        forall|c: int, d: int|
            0 <= c < d < clusters.len() ==> (#[trigger] clusters[c]).number != (
            #[trigger] clusters[d]).number,
        exists|numbers: Seq<usize>|
            {
                &&& #[trigger] numbers.len() == names.len()
                &&& forall|i: int|
                    0 <= i < names.len() ==> 1 <= #[trigger] numbers[i] <= clusters.len()
                &&& forall|c: int|
                    0 <= c < clusters.len() ==> (#[trigger] clusters[c]).reports.len() > 0
                        && clusters[c].reports.len() == occurrences(numbers, clusters[c].number)
                &&& forall|c: int, i: int|
                    0 <= c < clusters.len() && 0 <= i < names.len() && (
                    #[trigger] clusters[c]).number == #[trigger] numbers[i]
                        ==> clusters[c].reports.contains(names[i])
                &&& forall|c: int, name: Seq<char>|
                    0 <= c < clusters.len() && #[trigger] clusters[c].reports.contains(name)
                        ==> exists|i: int|
                        0 <= i < names.len() && #[trigger] names[i] == name && numbers[i]
                            == clusters[c].number
            },
{
    let n = names.len() as int;
    let numbers = choose|numbers: Seq<usize>| #[trigger]
        is_clustering(names, numbers, 0, clusters) && goes_by_frames(traces, numbers);
    assert(numbers.len() == names.len());
    assert(numbers.take(n) =~= numbers);
    assert forall|c: int| 0 <= c < clusters.len() implies (#[trigger] clusters[c]).reports.len() > 0
        && clusters[c].reports.len() == occurrences(numbers, clusters[c].number) by {
        lemma_numbered_len(names, numbers, clusters[c].number, n);
    }
    assert forall|c: int, i: int|
        0 <= c < clusters.len() && 0 <= i < names.len() && (#[trigger] clusters[c]).number
            == #[trigger] numbers[i] implies clusters[c].reports.contains(names[i]) by {
        lemma_numbered(names, numbers, clusters[c].number, n, names[i]);
    }
    assert forall|c: int, name: Seq<char>|
        0 <= c < clusters.len() && #[trigger] clusters[c].reports.contains(name) implies exists|
        i: int,
    |
        0 <= i < names.len() && #[trigger] names[i] == name && numbers[i] == clusters[c].number by {
        lemma_numbered(names, numbers, clusters[c].number, n, name);
    }
}

/// Of several clusters that hold a report the last counts.
pub proof fn law_the_last_cluster_that_holds_a_report_counts(
    clusters: Seq<ClusterView>,
    report: Seq<char>,
    c: int,
)
    requires
        0 <= c < clusters.len(),
        clusters[c].reports.contains(report),
        forall|d: int| c < d < clusters.len() ==> !(#[trigger] clusters[d]).reports.contains(report),
    ensures
        cluster_of(clusters, report) == clusters[c].number,
    decreases clusters.len(),
{
    if c < clusters.len() - 1 {
        let rest = clusters.drop_last();
        assert(!clusters[clusters.len() - 1].reports.contains(report));
        assert(rest[c] == clusters[c]);
        assert forall|d: int| c < d < rest.len() implies !(#[trigger] rest[d]).reports.contains(
            report,
        ) by {
            assert(rest[d] == clusters[d]);
        }
        law_the_last_cluster_that_holds_a_report_counts(rest, report, c);
    }
}

} // verus!

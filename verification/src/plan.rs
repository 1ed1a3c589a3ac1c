//! The steps from the parsed reports to the mapping of every crash.
use std::collections::HashMap;

use vstd::prelude::*;

use crate::cluster;
use crate::cluster::{Cluster, ClusterError};
use crate::group;
use crate::laws;
use crate::group::ParsedReport;
use crate::mapping;
use crate::mapping::ClusterMapResult;
use crate::report::{ReportInfo, StacktraceError};
use crate::stacktrace;
use crate::stacktrace::{Frame, FrameView};

verus! {

/// A crash and what reading the stack trace of its report came to.
#[derive(Debug)]
pub struct ReadReport {
    /// File name of the crash.
    pub crash: String,
    /// File name of its report.
    pub report: String,
    /// Stack trace in the report.
    pub trace: Result<Vec<Frame>, StacktraceError>,
}

/// The model of a parsed report: the names of the crash and of its report, and the stack trace.
pub open spec fn parsed_view(r: ParsedReport) -> (Seq<char>, Seq<char>, Seq<FrameView>) {
    (r.crash@, r.report@, stacktrace::frames_view(r.frames@))
}

/// The models of the reports whose stack trace could be read, in order.
pub open spec fn readable(reports: Seq<ReadReport>) -> Seq<(Seq<char>, Seq<char>, Seq<FrameView>)> {
    reports.filter(|r: ReadReport| r.trace is Ok).map_values(
        |r: ReadReport| (r.crash@, r.report@, stacktrace::frames_view(r.trace->Ok_0@)),
    )
}

/// The reports whose stack trace could be read, in order.
pub fn keep_parsed(reports: Vec<ReadReport>) -> (parsed: Vec<ParsedReport>)
    ensures
        parsed@.map_values(|r: ParsedReport| parsed_view(r)) == readable(reports@),
{
    let ghost all = reports@;
    let ghost model = |r: ParsedReport| parsed_view(r);
    let mut parsed: Vec<ParsedReport> = Vec::new();
    proof {
        reveal(Seq::filter);
        assert(parsed@.map_values(model) =~= readable(all.take(0)));
    }
    for report in it: reports
        invariant
            it.seq() == all,
            model == (|r: ParsedReport| parsed_view(r)),
            parsed@.map_values(model) == readable(all.take(it.index())),
    {
        let ghost done = all.take(it.index());
        let ghost before = parsed@;
        proof {
            reveal(Seq::filter);
            assert(all.take(it.index() + 1).drop_last() =~= done);
        }
        match report.trace {
            Ok(frames) => {
                parsed.push(ParsedReport { crash: report.crash, report: report.report, frames });
                assert(parsed@.map_values(model) =~= before.map_values(model).push(
                    parsed_view(parsed@.last()),
                ));
                assert(readable(all.take(it.index() + 1)) =~= readable(done).push(
                    parsed_view(parsed@.last()),
                ));
            },
            Err(_) => {},
        }
    }
    assert(all.take(all.len() as int) =~= all);
    parsed
}

/// What is to be done with the parsed reports.
#[derive(Debug)]
pub enum Plan {
    /// Nothing: this is the outcome.
    Done(ClusterMapResult),
    /// To cluster the representatives of these groups.
    Cluster(HashMap<usize, Vec<usize>>),
}

/// `plan` is what is to be done with reports in these groups: with a single group there is a single
/// cluster, and several groups are clustered by their representatives.
pub open spec fn is_plan_for(
    plan: Plan,
    total_crashes: usize,
    reports: Seq<ParsedReport>,
    groups: Map<usize, Seq<usize>>,
) -> bool {
    if groups.len() < 2 {
        plan matches Plan::Done(r) && mapping::is_equal_map(r, total_crashes, groups.len(), reports)
    } else {
        plan matches Plan::Cluster(g) && group::members(g@) == groups
    }
}

/// `plan` is what is to be done with the reports.
pub open spec fn is_plan(plan: Plan, total_crashes: usize, reports: Seq<ParsedReport>) -> bool {
    let traces = group::traces(reports);
    is_plan_for(plan, total_crashes, reports, group::grouping(traces, group::marks(traces)))
}

/// What is to be done with the parsed reports: without two of them, or without two different stack
/// traces, there is a single cluster.
pub fn plan_clustering(total_crashes: usize, reports: &Vec<ParsedReport>) -> (plan: Plan)
    ensures
        reports@.len() < 2 ==> (plan matches Plan::Done(r) && mapping::is_lone_map(
            r,
            total_crashes,
            reports@,
        )),
        reports@.len() >= 2 ==> is_plan(plan, total_crashes, reports@),
        plan is Done <==> forall|i: int|
            0 < i < reports@.len() ==> stacktrace::same_trace(
                #[trigger] laws::trace_of(reports@, i),
                laws::trace_of(reports@, 0),
            ),
        plan matches Plan::Cluster(groups) ==> group::is_partition(
            group::members(groups@),
            reports@.len(),
        ) && mapping::are_indices(group::members(groups@), reports@.len()),
{
    if reports.len() < 2 {
        return Plan::Done(mapping::map_lone_crashes(total_crashes, reports));
    }
    let groups = group::group_by_stacktrace(reports);
    assert(group::members(groups@).dom() =~= groups@.dom());
    let plan = if groups.len() < 2 {
        Plan::Done(mapping::map_equal_crashes(total_crashes, groups.len(), reports))
    } else {
        proof {
            let m = group::members(groups@);
            assert forall|r: usize| #[trigger] m.contains_key(r) implies r < reports@.len() by {
                assert(m[r][0] < reports@.len());
            }
        }
        Plan::Cluster(groups)
    };
    proof {
        laws::law_only_equal_traces_need_no_clustering(plan, total_crashes, reports@);
    }
    plan
}

/// Clusters the reports of the representatives, and maps every crash to the cluster of its
/// representative.
pub fn cluster_and_map(
    total_crashes: usize,
    reports: &Vec<ParsedReport>,
    groups: &HashMap<usize, Vec<usize>>,
    infos: Vec<ReportInfo>,
) -> (r: Result<(ClusterMapResult, Vec<Cluster>), ClusterError>)
    requires
        mapping::are_indices(group::members(groups@), reports@.len()),
        forall|i: int| 0 <= i < infos@.len() ==> (#[trigger] infos@[i]).frames@.len() > 0,
    ensures
        infos@.len() < 2 <==> r == Err::<(ClusterMapResult, Vec<Cluster>), ClusterError>(
            ClusterError::NotEnoughReports,
        ),
        infos@.len() >= 2 ==> r is Ok && cluster::are_clusters_of(
            cluster::info_names(infos@),
            cluster::info_traces(infos@),
            0,
            cluster::clusters_view(r->Ok_0.1@),
        ) && mapping::is_full_map(
            r->Ok_0.0,
            total_crashes,
            reports@,
            group::members(groups@),
            cluster::clusters_view(r->Ok_0.1@),
        ),
{
    match cluster::cluster(infos) {
        Ok(clusters) => Ok(
            (mapping::map_crashes(total_crashes, reports, groups, &clusters), clusters),
        ),
        Err(error) => Err(error),
    }
}

/// No readable crash is lost, and no other comes in: each report whose stack trace could be read is
/// kept with the name of its crash, its own name and exactly those frames, there are as many as such
/// reports, and they keep their order.
pub proof fn law_no_readable_report_is_lost(reports: Seq<ReadReport>)
    ensures
        readable(reports).len() == reports.filter(|r: ReadReport| r.trace is Ok).len(),
        forall|i: int|
            0 <= i < reports.len() && (#[trigger] reports[i]).trace is Ok ==> readable(
                reports,
            ).contains(
                (
                    reports[i].crash@,
                    reports[i].report@,
                    reports[i].trace->Ok_0@.map_values(|f: Frame| f@),
                ),
            ),
        exists|at: Seq<int>|
            {
                &&& #[trigger] at.len() == readable(reports).len()
                &&& forall|k: int, l: int| 0 <= k < l < at.len() ==> #[trigger] at[k] < #[trigger] at[l]
                &&& forall|k: int|
                    0 <= k < at.len() ==> {
                        &&& 0 <= #[trigger] at[k] < reports.len()
                        &&& reports[at[k]].trace is Ok
                        &&& readable(reports)[k].0 == reports[at[k]].crash@
                        &&& readable(reports)[k].1 == reports[at[k]].report@
                        &&& readable(reports)[k].2 == reports[at[k]].trace->Ok_0@.map_values(
                            |f: Frame| f@,
                        )
                    }
                &&& forall|i: int|
                    0 <= i < reports.len() && (#[trigger] reports[i]).trace is Ok ==> at.contains(i)
            },
    decreases reports.len(),
{
    reveal(Seq::filter);
    let kept = readable(reports);
    if reports.len() == 0 {
        let at = Seq::<int>::empty();
        assert(kept =~= Seq::empty());
        assert(at.len() == kept.len());
    } else {
        let rest = reports.drop_last();
        let last = reports.last();
        let n = reports.len() - 1;
        law_no_readable_report_is_lost(rest);
        let before = readable(rest);
        let at = choose|at: Seq<int>|
            {
                &&& #[trigger] at.len() == before.len()
                &&& forall|k: int, l: int| 0 <= k < l < at.len() ==> #[trigger] at[k] < #[trigger] at[l]
                &&& forall|k: int|
                    0 <= k < at.len() ==> {
                        &&& 0 <= #[trigger] at[k] < rest.len()
                        &&& rest[at[k]].trace is Ok
                        &&& before[k].0 == rest[at[k]].crash@
                        &&& before[k].1 == rest[at[k]].report@
                        &&& before[k].2 == rest[at[k]].trace->Ok_0@.map_values(|f: Frame| f@)
                    }
                &&& forall|i: int|
                    0 <= i < rest.len() && (#[trigger] rest[i]).trace is Ok ==> at.contains(i)
            };
        let model = (
            last.crash@,
            last.report@,
            last.trace->Ok_0@.map_values(|f: Frame| f@),
        );
        let now = if last.trace is Ok {
            at.push(n)
        } else {
            at
        };
        if last.trace is Ok {
            assert(kept =~= before.push(model));
        } else {
            assert(kept =~= before);
        }
        assert(now.len() == kept.len());
        assert forall|k: int| 0 <= k < now.len() implies {
            &&& 0 <= #[trigger] now[k] < reports.len()
            &&& reports[now[k]].trace is Ok
            &&& kept[k].0 == reports[now[k]].crash@
            &&& kept[k].1 == reports[now[k]].report@
            &&& kept[k].2 == reports[now[k]].trace->Ok_0@.map_values(|f: Frame| f@)
        } by {
            if k < at.len() {
                assert(now[k] == at[k]);
                assert(rest[at[k]] == reports[at[k]]);
            }
        }
        assert forall|i: int|
            0 <= i < reports.len() && (#[trigger] reports[i]).trace is Ok implies now.contains(i) by {
            if i < n {
                assert(rest[i] == reports[i]);
                assert(at.contains(i));
                let k = choose|k: int| 0 <= k < at.len() && at[k] == i;
                assert(now[k] == i);
            } else {
                assert(now[at.len() as int] == n);
            }
        }
        assert forall|i: int|
            0 <= i < reports.len() && (#[trigger] reports[i]).trace is Ok implies kept.contains(
            (
                reports[i].crash@,
                reports[i].report@,
                reports[i].trace->Ok_0@.map_values(|f: Frame| f@),
            ),
        ) by {
            assert(now.contains(i));
            let k = choose|k: int| 0 <= k < now.len() && now[k] == i;
            assert(kept[k] == (
                reports[i].crash@,
                reports[i].report@,
                reports[i].trace->Ok_0@.map_values(|f: Frame| f@),
            ));
        }
    }
}

/// A kept report has the names and the frames of its model.
pub proof fn law_the_model_of_a_parsed_report_is_complete(r: ParsedReport)
    ensures
        parsed_view(r).0 == r.crash@,
        parsed_view(r).1 == r.report@,
        parsed_view(r).2 == r.frames@.map_values(|f: Frame| f@),
{
    assert(parsed_view(r).2 =~= r.frames@.map_values(|f: Frame| f@));
}

} // verus!

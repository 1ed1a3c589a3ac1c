//! What holds of the mapping of the crashes as a whole.
use vstd::prelude::*;

use crate::cluster;
use crate::cluster::ClusterView;
use crate::group;
use crate::group::ParsedReport;
use crate::mapping;
use crate::mapping::{ClusterMapResult, CrashMapping, MappingView};
use crate::plan;
use crate::plan::Plan;
use crate::stacktrace;
use crate::stacktrace::FrameView;

verus! {

/// The entries of the outcome name each crash of the reports as often as the reports do.
pub open spec fn maps_every_crash(r: ClusterMapResult, reports: Seq<ParsedReport>) -> bool {
    mapping::entry_crashes(mapping::mappings_view(r.mappings@)).to_multiset()
        == mapping::crash_names(reports).to_multiset()
}

proof fn lemma_map_keeps_multiset<A, B>(a: Seq<A>, b: Seq<A>, f: spec_fn(A) -> B)
    requires
        a.to_multiset() == b.to_multiset(),
    ensures
        a.map_values(f).to_multiset() == b.map_values(f).to_multiset(),
    decreases a.len(),
{
    broadcast use vstd::seq_lib::group_to_multiset_ensures;

    assert(a.len() == a.to_multiset().len() && b.len() == b.to_multiset().len());
    if a.len() == 0 {
        assert(a.map_values(f) =~= b.map_values(f));
    } else {
        let x = a.last();
        assert(a.contains(x));
        assert(a.to_multiset().count(x) > 0);
        assert(b.contains(x));
        let i = choose|i: int| 0 <= i < b.len() && b[i] == x;
        let a1 = a.drop_last();
        let b1 = b.remove(i);
        assert(a1.push(x) =~= a);
        assert(b1.insert(i, x) =~= b);
        assert(a1.to_multiset() =~= b1.to_multiset());
        lemma_map_keeps_multiset(a1, b1, f);
        assert(a1.map_values(f).push(f(x)) =~= a.map_values(f));
        assert(b1.map_values(f).insert(i, f(x)) =~= b.map_values(f));
    }
}

proof fn lemma_filter_multiset<A>(s: Seq<A>, p: spec_fn(A) -> bool)
    ensures
        s.filter(p).to_multiset() == s.to_multiset().filter(p),
    decreases s.len(),
{
    broadcast use vstd::seq_lib::group_to_multiset_ensures;

    reveal(Seq::filter);
    if s.len() == 0 {
        assert(s.filter(p).to_multiset() =~= s.to_multiset().filter(p));
    } else {
        let rest = s.drop_last();
        lemma_filter_multiset(rest, p);
        assert(rest.push(s.last()) =~= s);
        assert(s.filter(p).to_multiset() =~= s.to_multiset().filter(p));
    }
}

/// The indices in the groups whose representatives are below `n`, in their order.
spec fn order_of(groups: Map<usize, Seq<usize>>, n: int) -> Seq<usize>
    decreases n,
{
    if n <= 0 {
        Seq::empty()
    } else {
        let r = (n - 1) as usize;
        if groups.contains_key(r) {
            order_of(groups, n - 1) + groups[r]
        } else {
            order_of(groups, n - 1)
        }
    }
}

proof fn lemma_order_of(groups: Map<usize, Seq<usize>>, n: nat, k: int)
    requires
        group::is_partition(groups, n),
        0 <= k <= n <= usize::MAX,
    ensures
        order_of(groups, k).no_duplicates(),
        forall|i: usize| #[trigger]
            order_of(groups, k).contains(i) <==> exists|r: usize|
                r < k && groups.contains_key(r) && #[trigger] groups[r].contains(i),
    decreases k,
{
    if k > 0 {
        lemma_order_of(groups, n, k - 1);
        let last = (k - 1) as usize;
        let before = order_of(groups, k - 1);
        let after = order_of(groups, k);
        if groups.contains_key(last) {
            let group = groups[last];
            assert(after == before + group);
            assert(group.no_duplicates()) by {
                assert forall|i: int, j: int|
                    0 <= i < group.len() && 0 <= j < group.len() && i != j implies group[i]
                    != group[j] by {
                    if i < j {
                        assert(groups[last][i] < groups[last][j]);
                    } else {
                        assert(groups[last][j] < groups[last][i]);
                    }
                }
            }
            assert forall|i: usize| !(before.contains(i) && #[trigger] group.contains(i)) by {
                if before.contains(i) && group.contains(i) {
                    let r = choose|r: usize|
                        r < k - 1 && groups.contains_key(r) && #[trigger] groups[r].contains(i);
                    assert(groups[r].contains(i) && groups[last].contains(i));
                }
            }
            assert forall|i: int, j: int|
                0 <= i < after.len() && 0 <= j < after.len() && i != j implies after[i]
                != after[j] by {
                if i < before.len() && j >= before.len() {
                    assert(before.contains(after[i]));
                    assert(group[j - before.len()] == after[j]);
                    assert(group.contains(after[j]));
                }
                if j < before.len() && i >= before.len() {
                    assert(before.contains(after[j]));
                    assert(group[i - before.len()] == after[i]);
                    assert(group.contains(after[i]));
                }
            }
            assert forall|i: usize| #[trigger] after.contains(i) <==> (before.contains(i)
                || group.contains(i)) by {
                if before.contains(i) {
                    let x = choose|x: int| 0 <= x < before.len() && before[x] == i;
                    assert(after[x] == i);
                }
                if group.contains(i) {
                    let x = choose|x: int| 0 <= x < group.len() && group[x] == i;
                    assert(after[before.len() + x] == i);
                }
                if after.contains(i) {
                    let x = choose|x: int| 0 <= x < after.len() && after[x] == i;
                    if x < before.len() {
                        assert(before[x] == i);
                    } else {
                        assert(group[x - before.len()] == i);
                    }
                }
            }
        }
        assert forall|i: usize| #[trigger] after.contains(i) <==> exists|r: usize|
            r < k && groups.contains_key(r) && #[trigger] groups[r].contains(i) by {
            if groups.contains_key(last) && groups[last].contains(i) {
                assert(after.contains(i));
            }
            if exists|r: usize|
                r < k && groups.contains_key(r) && #[trigger] groups[r].contains(i) {
                let r = choose|r: usize|
                    r < k && groups.contains_key(r) && #[trigger] groups[r].contains(i);
                if r != last {
                    assert(groups[r].contains(i));
                    assert(before.contains(i));
                }
            }
            if before.contains(i) {
                let r = choose|r: usize|
                    r < k - 1 && groups.contains_key(r) && #[trigger] groups[r].contains(i);
                assert(r < k && groups.contains_key(r) && groups[r].contains(i));
            }
        }
    }
}

proof fn lemma_order_is_a_permutation(groups: Map<usize, Seq<usize>>, n: nat)
    requires
        group::is_partition(groups, n),
        n <= usize::MAX,
    ensures
        order_of(groups, n as int).to_multiset() == mapping::indices(n).to_multiset(),
{
    broadcast use vstd::seq_lib::group_to_multiset_ensures;

    let order = order_of(groups, n as int);
    let plain = mapping::indices(n);
    lemma_order_of(groups, n, n as int);
    assert(plain.no_duplicates());
    assert forall|i: usize| order.contains(i) <==> #[trigger] plain.contains(i) by {
        if plain.contains(i) {
            assert(i < n);
            assert(group::is_grouped(groups, i));
            let r = choose|r: usize| groups.contains_key(r) && #[trigger] groups[r].contains(i);
            assert(groups[r][0] < n);
        }
        if order.contains(i) {
            let r = choose|r: usize|
                r < n && groups.contains_key(r) && #[trigger] groups[r].contains(i);
            let x = choose|x: int| 0 <= x < groups[r].len() && groups[r][x] == i;
            assert(groups[r][x] < n);
            assert(plain[i as int] == i);
        }
    }
    order.lemma_multiset_has_no_duplicates();
    plain.lemma_multiset_has_no_duplicates();
    assert forall|i: usize| #[trigger] order.to_multiset().count(i) == plain.to_multiset().count(
        i,
    ) by {
        assert(order.contains(i) <==> plain.contains(i));
        if order.contains(i) {
            assert(order.to_multiset().contains(i));
            assert(plain.to_multiset().contains(i));
        }
    }
    assert(order.to_multiset() =~= plain.to_multiset());
}

proof fn lemma_entries_follow_the_order(
    crashes: Seq<Seq<char>>,
    reports: Seq<Seq<char>>,
    groups: Map<usize, Seq<usize>>,
    clusters: Seq<ClusterView>,
    n: int,
)
    ensures
        mapping::entry_crashes(mapping::entries_of(crashes, reports, groups, clusters, n))
            == order_of(groups, n).map_values(|m: usize| crashes[m as int]),
    decreases n,
{
    let f = |m: usize| crashes[m as int];
    if n > 0 {
        lemma_entries_follow_the_order(crashes, reports, groups, clusters, n - 1);
        let r = (n - 1) as usize;
        if groups.contains_key(r) {
            let before = mapping::entries_of(crashes, reports, groups, clusters, n - 1);
            let added = mapping::group_entries(
                crashes,
                r,
                groups[r],
                cluster::cluster_of(clusters, reports[r as int]),
            );
            assert(mapping::entry_crashes(added) =~= groups[r].map_values(f));
            assert(mapping::entry_crashes(before + added) =~= mapping::entry_crashes(before)
                + mapping::entry_crashes(added));
            assert(order_of(groups, n).map_values(f) =~= order_of(groups, n - 1).map_values(f)
                + groups[r].map_values(f));
        }
    } else {
        assert(mapping::entry_crashes(
            mapping::entries_of(crashes, reports, groups, clusters, n),
        ) =~= order_of(groups, n).map_values(f));
    }
}

/// No crash is lost: if the groups partition the reports, the outcome holds an entry for the crash
/// of each report.
pub proof fn law_every_crash_is_mapped(
    r: ClusterMapResult,
    total_crashes: usize,
    reports: Seq<ParsedReport>,
    groups: Map<usize, Seq<usize>>,
    clusters: Seq<ClusterView>,
)
    requires
        reports.len() <= usize::MAX,
        group::is_partition(groups, reports.len()),
        mapping::is_full_map(r, total_crashes, reports, groups, clusters),
    ensures
        maps_every_crash(r, reports),
        r.mappings@.len() == reports.len(),
{
    broadcast use vstd::seq_lib::group_to_multiset_ensures;

    let crashes = mapping::crash_names(reports);
    let n = reports.len();
    let all = mapping::all_entries(reports, groups, clusters);
    let sorted = mapping::mappings_view(r.mappings@);
    let f = |m: usize| crashes[m as int];
    lemma_map_keeps_multiset(sorted, all, |m: MappingView| m.crash);
    lemma_entries_follow_the_order(
        crashes,
        mapping::report_names(reports),
        groups,
        clusters,
        n as int,
    );
    lemma_order_is_a_permutation(groups, n);
    lemma_map_keeps_multiset(order_of(groups, n as int), mapping::indices(n), f);
    assert(mapping::indices(n).map_values(f) =~= crashes);
    assert(mapping::entry_crashes(sorted).len() == crashes.len()) by {
        assert(mapping::entry_crashes(sorted).to_multiset().len() == crashes.to_multiset().len());
    }
}

/// No crash is lost where each crash represents itself.
pub proof fn law_every_lone_crash_is_mapped(
    r: ClusterMapResult,
    total_crashes: usize,
    reports: Seq<ParsedReport>,
)
    requires
        mapping::is_lone_map(r, total_crashes, reports),
    ensures
        maps_every_crash(r, reports),
        r.mappings@.len() == reports.len(),
{
    let sorted = mapping::mappings_view(r.mappings@);
    assert(mapping::entry_crashes(sorted) =~= mapping::crash_names(reports));
    assert(sorted.len() == r.mappings@.len());
}

/// No crash is lost where the first crash represents the others.
pub proof fn law_every_equal_crash_is_mapped(
    r: ClusterMapResult,
    total_crashes: usize,
    unique_stacktraces: nat,
    reports: Seq<ParsedReport>,
)
    requires
        reports.len() <= usize::MAX,
        mapping::is_equal_map(r, total_crashes, unique_stacktraces, reports),
    ensures
        maps_every_crash(r, reports),
        r.mappings@.len() == reports.len(),
{
    broadcast use vstd::seq_lib::group_to_multiset_ensures;

    let crashes = mapping::crash_names(reports);
    let all = mapping::group_entries(crashes, 0, mapping::indices(reports.len()), 1);
    let sorted = mapping::mappings_view(r.mappings@);
    lemma_map_keeps_multiset(sorted, all, |m: MappingView| m.crash);
    assert(mapping::entry_crashes(all) =~= crashes);
    assert(mapping::entry_crashes(sorted).len() == crashes.len()) by {
        assert(mapping::entry_crashes(sorted).to_multiset().len() == crashes.to_multiset().len());
    }
}

proof fn lemma_sorted_holds(entries: Seq<MappingView>, sorted: Seq<MappingView>, entry: MappingView)
    requires
        mapping::is_stable_sort(entries, sorted),
    ensures
        sorted.contains(entry) <==> entries.contains(entry),
{
    broadcast use vstd::seq_lib::group_to_multiset_ensures;

    assert(sorted.to_multiset().count(entry) == entries.to_multiset().count(entry));
}

proof fn lemma_entries_hold_group(
    crashes: Seq<Seq<char>>,
    reports: Seq<Seq<char>>,
    groups: Map<usize, Seq<usize>>,
    clusters: Seq<ClusterView>,
    n: int,
    representative: usize,
    k: int,
)
    requires
        representative < n <= usize::MAX,
        groups.contains_key(representative),
        0 <= k < groups[representative].len(),
    ensures
        mapping::entries_of(crashes, reports, groups, clusters, n).contains(
            mapping::entry_of(
                crashes,
                representative,
                groups[representative][k],
                cluster::cluster_of(clusters, reports[representative as int]),
            ),
        ),
    decreases n,
{
    let entry = mapping::entry_of(
        crashes,
        representative,
        groups[representative][k],
        cluster::cluster_of(clusters, reports[representative as int]),
    );
    let before = mapping::entries_of(crashes, reports, groups, clusters, n - 1);
    let after = mapping::entries_of(crashes, reports, groups, clusters, n);
    if representative == n - 1 {
        assert(after[before.len() + k] == entry);
    } else {
        lemma_entries_hold_group(
            crashes,
            reports,
            groups,
            clusters,
            n - 1,
            representative,
            k,
        );
        let x = choose|x: int| 0 <= x < before.len() && before[x] == entry;
        assert(after[x] == entry);
    }
}

proof fn lemma_entries_come_from_groups(
    crashes: Seq<Seq<char>>,
    reports: Seq<Seq<char>>,
    groups: Map<usize, Seq<usize>>,
    clusters: Seq<ClusterView>,
    n: int,
    x: int,
) -> (from: (usize, int))
    requires
        0 <= n <= usize::MAX,
        0 <= x < mapping::entries_of(crashes, reports, groups, clusters, n).len(),
    ensures
        from.0 < n,
        groups.contains_key(from.0),
        0 <= from.1 < groups[from.0].len(),
        mapping::entries_of(crashes, reports, groups, clusters, n)[x] == mapping::entry_of(
            crashes,
            from.0,
            groups[from.0][from.1],
            cluster::cluster_of(clusters, reports[from.0 as int]),
        ),
    decreases n,
{
    let before = mapping::entries_of(crashes, reports, groups, clusters, n - 1);
    if x < before.len() {
        lemma_entries_come_from_groups(crashes, reports, groups, clusters, n - 1, x)
    } else {
        ((n - 1) as usize, x - before.len())
    }
}

/// Crashes with the same stack trace stay together: each member of a group is mapped to the
/// cluster that holds the report of its representative, and names that representative.
pub proof fn law_a_group_shares_its_cluster(
    r: ClusterMapResult,
    total_crashes: usize,
    reports: Seq<ParsedReport>,
    groups: Map<usize, Seq<usize>>,
    clusters: Seq<ClusterView>,
    representative: usize,
    k: int,
)
    requires
        reports.len() <= usize::MAX,
        mapping::are_indices(groups, reports.len()),
        mapping::is_full_map(r, total_crashes, reports, groups, clusters),
        groups.contains_key(representative),
        0 <= k < groups[representative].len(),
    ensures
        mapping::mappings_view(r.mappings@).contains(
            mapping::entry_of(
                mapping::crash_names(reports),
                representative,
                groups[representative][k],
                cluster::cluster_of(clusters, reports[representative as int].report@),
            ),
        ),
{
    let crashes = mapping::crash_names(reports);
    let names = mapping::report_names(reports);
    lemma_entries_hold_group(
        crashes,
        names,
        groups,
        clusters,
        reports.len() as int,
        representative,
        k,
    );
    assert(names[representative as int] == reports[representative as int].report@);
    lemma_sorted_holds(
        mapping::all_entries(reports, groups, clusters),
        mapping::mappings_view(r.mappings@),
        mapping::entry_of(
            crashes,
            representative,
            groups[representative][k],
            cluster::cluster_of(clusters, names[representative as int]),
        ),
    );
}

/// An entry names another crash as its representative if and only if it is not one itself, and then
/// the outcome holds an entry for that crash, which is a representative in the same cluster.
pub proof fn law_representatives_are_mapped(
    r: ClusterMapResult,
    total_crashes: usize,
    reports: Seq<ParsedReport>,
    groups: Map<usize, Seq<usize>>,
    clusters: Seq<ClusterView>,
    x: int,
)
    requires
        reports.len() <= usize::MAX,
        group::is_partition(groups, reports.len()),
        mapping::is_full_map(r, total_crashes, reports, groups, clusters),
        0 <= x < r.mappings@.len(),
    ensures
        ({
            let entry = r.mappings@[x]@;
            &&& entry.is_representative <==> entry.representative is None
            &&& entry.representative matches Some(name) ==> mapping::mappings_view(
                r.mappings@,
            ).contains(
                (MappingView {
                    crash: name,
                    cluster_id: entry.cluster_id,
                    is_representative: true,
                    representative: None,
                }),
            )
        }),
{
    let crashes = mapping::crash_names(reports);
    let names = mapping::report_names(reports);
    let all = mapping::all_entries(reports, groups, clusters);
    let sorted = mapping::mappings_view(r.mappings@);
    let entry = r.mappings@[x]@;
    assert(sorted[x] == entry);
    assert(sorted.contains(entry));
    lemma_sorted_holds(all, sorted, entry);
    let y = choose|y: int| 0 <= y < all.len() && all[y] == entry;
    let from = lemma_entries_come_from_groups(
        crashes,
        names,
        groups,
        clusters,
        reports.len() as int,
        y,
    );
    assert(groups[from.0][0] == from.0);
    lemma_entries_hold_group(
        crashes,
        names,
        groups,
        clusters,
        reports.len() as int,
        from.0,
        0,
    );
    lemma_sorted_holds(
        all,
        sorted,
        mapping::entry_of(
            crashes,
            from.0,
            from.0,
            cluster::cluster_of(clusters, names[from.0 as int]),
        ),
    );
}

/// The table of clusters and the entries say the same: the table holds a cluster if and only if an
/// entry names it, and with the crashes of those entries.
pub proof fn law_the_table_agrees_with_the_entries(
    r: ClusterMapResult,
    total_crashes: usize,
    reports: Seq<ParsedReport>,
    groups: Map<usize, Seq<usize>>,
    clusters: Seq<ClusterView>,
    id: usize,
)
    requires
        mapping::is_full_map(r, total_crashes, reports, groups, clusters),
    ensures
        r.clusters@.contains_key(id) <==> mapping::crashes_in(
            mapping::mappings_view(r.mappings@),
            id,
        ).len() > 0,
        r.clusters@.contains_key(id) ==> mapping::table_view(r.clusters@)[id].to_multiset()
            == mapping::crashes_in(mapping::mappings_view(r.mappings@), id).to_multiset(),
{
    broadcast use vstd::seq_lib::group_to_multiset_ensures;

    let all = mapping::all_entries(reports, groups, clusters);
    let sorted = mapping::mappings_view(r.mappings@);
    let in_cluster = |m: MappingView| m.cluster_id == id;
    lemma_filter_multiset(all, in_cluster);
    lemma_filter_multiset(sorted, in_cluster);
    lemma_map_keeps_multiset(
        all.filter(in_cluster),
        sorted.filter(in_cluster),
        |m: MappingView| m.crash,
    );
    assert(mapping::crashes_in(all, id).len() == mapping::crashes_in(
        all,
        id,
    ).to_multiset().len());
    assert(mapping::crashes_in(sorted, id).len() == mapping::crashes_in(
        sorted,
        id,
    ).to_multiset().len());
    assert(mapping::table_view(r.clusters@).contains_key(id) == r.clusters@.contains_key(id));
}

proof fn lemma_crashes_in(entries: Seq<MappingView>, id: usize)
    ensures
        mapping::crashes_in(entries, id).len() > 0 <==> exists|i: int|
            0 <= i < entries.len() && (#[trigger] entries[i]).cluster_id == id,
    decreases entries.len(),
{
    reveal(Seq::filter);
    if entries.len() > 0 {
        let rest = entries.drop_last();
        lemma_crashes_in(rest, id);
        if entries.last().cluster_id == id {
            assert(entries[entries.len() - 1].cluster_id == id);
        } else {
            assert(mapping::crashes_in(entries, id) == mapping::crashes_in(rest, id));
            if exists|i: int| 0 <= i < rest.len() && (#[trigger] rest[i]).cluster_id == id {
                let i = choose|i: int| 0 <= i < rest.len() && (#[trigger] rest[i]).cluster_id == id;
                assert(entries[i].cluster_id == id);
            }
            if exists|i: int| 0 <= i < entries.len() && (#[trigger] entries[i]).cluster_id == id {
                let i = choose|i: int|
                    0 <= i < entries.len() && (#[trigger] entries[i]).cluster_id == id;
                assert(rest[i].cluster_id == id);
            }
        }
    }
}

/// The crash is mapped to a cluster whose number is not above the number of clusters.
pub proof fn law_entries_name_existing_clusters(
    r: ClusterMapResult,
    total_crashes: usize,
    reports: Seq<ParsedReport>,
    groups: Map<usize, Seq<usize>>,
    names: Seq<Seq<char>>,
    traces: Seq<Seq<FrameView>>,
    clusters: Seq<ClusterView>,
    x: int,
)
    requires
        reports.len() <= usize::MAX,
        names.len() > 0,
        cluster::are_clusters_of(names, traces, 0, clusters),
        mapping::is_full_map(r, total_crashes, reports, groups, clusters),
        0 <= x < r.mappings@.len(),
    ensures
        1 <= r.mappings@[x].cluster_id <= r.num_clusters,
{
    let all = mapping::all_entries(reports, groups, clusters);
    let sorted = mapping::mappings_view(r.mappings@);
    assert(sorted[x] == r.mappings@[x]@);
    assert(sorted.contains(sorted[x]));
    lemma_sorted_holds(all, sorted, sorted[x]);
    let y = choose|y: int| 0 <= y < all.len() && all[y] == sorted[x];
    let report_names = mapping::report_names(reports);
    let from = lemma_entries_come_from_groups(
        mapping::crash_names(reports),
        report_names,
        groups,
        clusters,
        reports.len() as int,
        y,
    );
    cluster::law_cluster_numbers_are_in_range(names, traces, clusters, report_names[from.0 as int]);
}

/// `name` is that of the report of a representative.
pub open spec fn is_representative_report(
    reports: Seq<ParsedReport>,
    groups: Map<usize, Seq<usize>>,
    name: Seq<char>,
) -> bool {
    exists|representative: usize| #[trigger]
        groups.contains_key(representative) && representative < reports.len()
            && reports[representative as int].report@ == name
}

/// Where the reports that were clustered are those of representatives and no two have the same
/// name, the table has a row for each cluster: for the numbers from one to the number of clusters
/// and for no other.
pub proof fn law_the_table_has_a_row_for_each_cluster(
    r: ClusterMapResult,
    total_crashes: usize,
    reports: Seq<ParsedReport>,
    groups: Map<usize, Seq<usize>>,
    names: Seq<Seq<char>>,
    traces: Seq<Seq<FrameView>>,
    clusters: Seq<ClusterView>,
    id: usize,
)
    requires
        reports.len() <= usize::MAX,
        group::is_partition(groups, reports.len()),
        names.len() > 0,
        names.no_duplicates(),
        forall|i: int|
            0 <= i < names.len() ==> is_representative_report(reports, groups, #[trigger] names[i]),
        cluster::are_clusters_of(names, traces, 0, clusters),
        mapping::is_full_map(r, total_crashes, reports, groups, clusters),
    ensures
        r.clusters@.contains_key(id) <==> 1 <= id <= r.num_clusters,
{
    let n = reports.len() as int;
    let all = mapping::all_entries(reports, groups, clusters);
    let crashes = mapping::crash_names(reports);
    let report_names = mapping::report_names(reports);
    lemma_crashes_in(all, id);
    assert(mapping::table_view(r.clusters@).contains_key(id) == r.clusters@.contains_key(id));
    if r.clusters@.contains_key(id) {
        let y = choose|y: int| 0 <= y < all.len() && (#[trigger] all[y]).cluster_id == id;
        let from = lemma_entries_come_from_groups(crashes, report_names, groups, clusters, n, y);
        cluster::law_cluster_numbers_are_in_range(names, traces, clusters, report_names[from.0 as int]);
    }
    if 1 <= id <= clusters.len() {
        cluster::law_every_cluster_is_that_of_a_report(names, traces, clusters, id);
        let i = choose|i: int|
            0 <= i < names.len() && cluster::cluster_of(clusters, #[trigger] names[i]) == id;
        assert(is_representative_report(reports, groups, names[i]));
        let representative = choose|representative: usize| #[trigger]
            groups.contains_key(representative) && representative < reports.len()
                && reports[representative as int].report@ == names[i];
        assert(groups[representative].len() > 0);
        lemma_entries_hold_group(crashes, report_names, groups, clusters, n, representative, 0);
        assert(report_names[representative as int] == names[i]);
        let entry = mapping::entry_of(crashes, representative, groups[representative][0], id);
        let y = choose|y: int| 0 <= y < all.len() && all[y] == entry;
        assert(all[y].cluster_id == id);
    }
}

proof fn lemma_one_representative(
    crashes: Seq<Seq<char>>,
    representative: usize,
    members: Seq<usize>,
    id: usize,
)
    requires
        members.len() > 0,
        members[0] == representative,
        forall|k: int| 0 < k < members.len() ==> #[trigger] members[k] != representative,
    ensures
        mapping::group_entries(crashes, representative, members, id).filter(
            |m: MappingView| m.is_representative,
        ).len() == 1,
    decreases members.len(),
{
    reveal(Seq::filter);
    let p = |m: MappingView| m.is_representative;
    let entries = mapping::group_entries(crashes, representative, members, id);
    if members.len() == 1 {
        assert(entries.drop_last() =~= Seq::empty());
        assert(entries.drop_last().filter(p) =~= Seq::empty());
    } else {
        lemma_one_representative(crashes, representative, members.drop_last(), id);
        assert(entries.drop_last() =~= mapping::group_entries(
            crashes,
            representative,
            members.drop_last(),
            id,
        ));
        assert(members[members.len() - 1] != representative);
    }
}

/// The representatives below `n`.
spec fn representatives_below(groups: Map<usize, Seq<usize>>, n: int) -> Set<usize> {
    groups.dom().filter(|r: usize| r < n)
}

proof fn lemma_count_representatives(
    crashes: Seq<Seq<char>>,
    reports: Seq<Seq<char>>,
    groups: Map<usize, Seq<usize>>,
    clusters: Seq<ClusterView>,
    total: nat,
    n: int,
)
    requires
        group::is_partition(groups, total),
        0 <= n <= total <= usize::MAX,
    ensures
        representatives_below(groups, n).finite(),
        mapping::entries_of(crashes, reports, groups, clusters, n).filter(
            |m: MappingView| m.is_representative,
        ).len() == representatives_below(groups, n).len(),
    decreases n,
{
    let p = |m: MappingView| m.is_representative;
    let after = representatives_below(groups, n);
    reveal(Seq::filter);
    if n == 0 {
        assert(after =~= Set::empty());
    } else {
        lemma_count_representatives(crashes, reports, groups, clusters, total, n - 1);
        let r = (n - 1) as usize;
        let before = representatives_below(groups, n - 1);
        let entries = mapping::entries_of(crashes, reports, groups, clusters, n - 1);
        if groups.contains_key(r) {
            let id = cluster::cluster_of(clusters, reports[r as int]);
            assert(after =~= before.insert(r));
            assert forall|k: int| 0 < k < groups[r].len() implies #[trigger] groups[r][k] != r by {
                assert(groups[r][0] < groups[r][k]);
            }
            lemma_one_representative(crashes, r, groups[r], id);
            Seq::filter_distributes_over_add(
                entries,
                mapping::group_entries(crashes, r, groups[r], id),
                p,
            );
        } else {
            assert(after =~= before);
        }
    }
}

/// The outcome counts as different stack traces the crashes that are representatives.
pub proof fn law_unique_stacktraces_are_the_representatives(
    r: ClusterMapResult,
    total_crashes: usize,
    reports: Seq<ParsedReport>,
    groups: Map<usize, Seq<usize>>,
    clusters: Seq<ClusterView>,
)
    requires
        reports.len() <= usize::MAX,
        group::is_partition(groups, reports.len()),
        mapping::is_full_map(r, total_crashes, reports, groups, clusters),
    ensures
        mapping::mappings_view(r.mappings@).filter(|m: MappingView| m.is_representative).len()
            == r.unique_stacktraces,
{
    broadcast use vstd::seq_lib::group_to_multiset_ensures;

    let p = |m: MappingView| m.is_representative;
    let n = reports.len();
    let all = mapping::all_entries(reports, groups, clusters);
    let sorted = mapping::mappings_view(r.mappings@);
    lemma_filter_multiset(all, p);
    lemma_filter_multiset(sorted, p);
    assert(all.filter(p).len() == all.filter(p).to_multiset().len());
    assert(sorted.filter(p).len() == sorted.filter(p).to_multiset().len());
    lemma_count_representatives(
        mapping::crash_names(reports),
        mapping::report_names(reports),
        groups,
        clusters,
        n,
        n as int,
    );
    assert(representatives_below(groups, n as int) =~= groups.dom()) by {
        assert forall|k: usize| groups.contains_key(k) implies k < n by {
            assert(groups[k][0] < n);
        }
    }
}

/// Where there is nothing to cluster, the outcome is at hand and no crash is lost in it.
pub proof fn law_a_finished_plan_maps_every_crash(
    plan: Plan,
    total_crashes: usize,
    reports: Seq<ParsedReport>,
)
    requires
        reports.len() <= usize::MAX,
        plan::is_plan(plan, total_crashes, reports),
    ensures
        plan matches Plan::Done(r) ==> maps_every_crash(r, reports) && r.num_clusters == 1,
{
    let traces = group::traces(reports);
    let groups = group::grouping(traces, group::marks(traces));
    if plan is Done {
        law_every_equal_crash_is_mapped(plan->Done_0, total_crashes, groups.len(), reports);
    }
}

/// The stack trace of report `i`.
pub open spec fn trace_of(reports: Seq<ParsedReport>, i: int) -> Seq<FrameView> {
    stacktrace::frames_view(reports[i].frames@)
}

proof fn lemma_number_of_groups(reports: Seq<ParsedReport>)
    requires
        0 < reports.len() <= usize::MAX,
    ensures
        group::groups_of(reports).dom().finite(),
        group::groups_of(reports).contains_key(0),
        group::groups_of(reports).len() >= 1,
        group::groups_of(reports).len() < 2 <==> forall|i: int|
            0 < i < reports.len() ==> stacktrace::same_trace(
                #[trigger] trace_of(reports, i),
                trace_of(reports, 0),
            ),
{
    let n = reports.len() as int;
    let t = group::traces(reports);
    let u = group::marks(t);
    let groups = group::groups_of(reports);
    assert(t.len() == n);
    group::law_marks_are_a_dedup(t);
    group::law_grouping_is_a_partition(t, u);
    lemma_count_representatives(
        mapping::crash_names(reports),
        mapping::report_names(reports),
        groups,
        Seq::empty(),
        reports.len(),
        n,
    );
    assert(representatives_below(groups, n) =~= groups.dom());
    assert(u[0] != group::is_follower(t, u, 0));
    assert(groups.contains_key(0));
    assert(groups.dom().contains(0));
    assert(set![0usize].subset_of(groups.dom()));
    vstd::set_lib::lemma_len_subset(set![0usize], groups.dom());
    if forall|i: int|
        0 < i < n ==> stacktrace::same_trace(#[trigger] trace_of(reports, i), trace_of(reports, 0)) {
        assert forall|r: usize| groups.dom().contains(r) implies r == 0 by {
            if r != 0 {
                assert(stacktrace::same_trace(trace_of(reports, r as int), trace_of(reports, 0)));
                assert(stacktrace::same_trace(t[r as int], t[0]));
                assert(group::is_follower(t, u, r as int));
                assert(u[r as int] != group::is_follower(t, u, r as int));
            }
        }
        assert(groups.dom() =~= set![0usize]);
    } else {
        let i = choose|i: int|
            0 < i < n && !stacktrace::same_trace(
                #[trigger] trace_of(reports, i),
                trace_of(reports, 0),
            );
        assert(u[i] != group::is_follower(t, u, i));
        let other = if u[i] {
            i
        } else {
            choose|j: int|
                0 <= j < i && u[j] && stacktrace::same_trace(t[i], #[trigger] t[j])
        };
        assert(u[other] && other != 0);
        assert(groups.dom().contains(other as usize));
        let two = set![0usize, other as usize];
        assert(two.subset_of(groups.dom()));
        vstd::set_lib::lemma_len_subset(two, groups.dom());
        assert(two.len() == 2);
    }
}

/// `r` maps report `k` as a crash of cluster `id` that the crash of report `representative` stands
/// for.
pub open spec fn maps_report(
    m: CrashMapping,
    reports: Seq<ParsedReport>,
    k: int,
    representative: int,
    id: usize,
) -> bool {
    &&& m.crash@ == reports[k].crash@
    &&& m.cluster_id == id
    &&& m.is_representative <==> k == representative
    &&& k == representative ==> m.representative is None
    &&& k != representative ==> m.representative is Some && m.representative->0@
        == reports[representative].crash@
}

/// With two reports or more there is nothing to cluster if and only if the stack trace of every
/// report agrees with that of the first. The crash of the first report then represents all others,
/// which have its stack trace, and there is one stack trace and one cluster, with every crash.
pub proof fn law_only_equal_traces_need_no_clustering(
    plan: Plan,
    total_crashes: usize,
    reports: Seq<ParsedReport>,
)
    requires
        2 <= reports.len() <= usize::MAX,
        plan::is_plan(plan, total_crashes, reports),
    ensures
        plan is Done <==> forall|i: int|
            0 < i < reports.len() ==> stacktrace::same_trace(
                #[trigger] trace_of(reports, i),
                trace_of(reports, 0),
            ),
        plan matches Plan::Done(r) ==> {
            &&& r.total_crashes == total_crashes
            &&& r.unique_stacktraces == 1
            &&& r.num_clusters == 1
            &&& r.mappings@.len() == reports.len()
            &&& r.mappings@.filter(|m: CrashMapping| m.is_representative).len() == 1
            &&& forall|k: int|
                0 <= k < reports.len() ==> exists|x: int|
                    0 <= x < r.mappings@.len() && maps_report(
                        #[trigger] r.mappings@[x],
                        reports,
                        k,
                        0,
                        1,
                    ) && (#[trigger] reports[k]).crash@ == r.mappings@[x].crash@
            &&& forall|x: int|
                0 <= x < r.mappings@.len() ==> exists|k: int|
                    0 <= k < reports.len() && maps_report(
                        #[trigger] r.mappings@[x],
                        reports,
                        k,
                        0,
                        1,
                    ) && (#[trigger] reports[k]).crash@ == r.mappings@[x].crash@
            &&& r.clusters@.dom() == set![1usize]
            &&& r.clusters@[1]@.len() == reports.len()
            &&& forall|x: int|
                0 <= x < reports.len() ==> #[trigger] r.clusters@[1]@[x]@ == r.mappings@[x].crash@
        },
        plan matches Plan::Cluster(groups) ==> group::members(groups@) == group::groups_of(reports),
{
    broadcast use vstd::seq_lib::group_to_multiset_ensures;

    let n = reports.len() as int;
    let groups = group::groups_of(reports);
    lemma_number_of_groups(reports);
    if plan is Done {
        let r = plan->Done_0;
        let crashes = mapping::crash_names(reports);
        let all = mapping::group_entries(crashes, 0, mapping::indices(reports.len()), 1);
        let sorted = mapping::mappings_view(r.mappings@);
        assert(sorted.len() == r.mappings@.len());
        assert(sorted.len() == sorted.to_multiset().len() && all.len() == all.to_multiset().len());
        assert forall|k: int| 0 <= k < reports.len() implies exists|x: int|
            0 <= x < r.mappings@.len() && maps_report(
                #[trigger] r.mappings@[x],
                reports,
                k,
                0,
                1,
            ) && (#[trigger] reports[k]).crash@ == r.mappings@[x].crash@ by {
            assert(all[k] == mapping::entry_of(crashes, 0, k as usize, 1));
            assert(all.contains(all[k]));
            lemma_sorted_holds(all, sorted, all[k]);
            let x = choose|x: int| 0 <= x < sorted.len() && sorted[x] == all[k];
            assert(r.mappings@[x]@ == all[k]);
            assert(maps_report(r.mappings@[x], reports, k, 0, 1));
        }
        assert forall|x: int| 0 <= x < r.mappings@.len() implies exists|k: int|
            0 <= k < reports.len() && maps_report(
                #[trigger] r.mappings@[x],
                reports,
                k,
                0,
                1,
            ) && (#[trigger] reports[k]).crash@ == r.mappings@[x].crash@ by {
            assert(sorted[x] == r.mappings@[x]@);
            assert(sorted.contains(sorted[x]));
            lemma_sorted_holds(all, sorted, sorted[x]);
            let k = choose|k: int| 0 <= k < all.len() && all[k] == sorted[x];
            assert(all[k] == mapping::entry_of(crashes, 0, k as usize, 1));
            assert(reports[k].crash@ == r.mappings@[x].crash@);
            assert(maps_report(r.mappings@[x], reports, k, 0, 1));
        }
        let p = |m: MappingView| m.is_representative;
        lemma_filter_multiset(all, p);
        lemma_filter_multiset(sorted, p);
        assert(all.filter(p).len() == all.filter(p).to_multiset().len());
        assert(sorted.filter(p).len() == sorted.filter(p).to_multiset().len());
        lemma_one_representative(crashes, 0, mapping::indices(reports.len()), 1);
        lemma_filter_view(r.mappings@);
        let table = mapping::table_view(r.clusters@);
        assert(table.dom() =~= r.clusters@.dom());
        assert(table[1] == mapping::entry_crashes(sorted));
        assert(table.contains_key(1usize));
        assert(r.clusters@.dom() =~= set![1usize]);
        assert(crate::text::texts(r.clusters@[1]@) == mapping::entry_crashes(sorted));
        assert forall|x: int| 0 <= x < reports.len() implies #[trigger] r.clusters@[1]@[x]@
            == r.mappings@[x].crash@ by {
            assert(crate::text::texts(r.clusters@[1]@)[x] == r.clusters@[1]@[x]@);
            assert(mapping::entry_crashes(sorted)[x] == sorted[x].crash);
        }
        assert(r.clusters@[1]@.len() == crate::text::texts(r.clusters@[1]@).len());
    }
}

proof fn lemma_filter_view(mappings: Seq<CrashMapping>)
    ensures
        mappings.filter(|m: CrashMapping| m.is_representative).len() == mapping::mappings_view(
            mappings,
        ).filter(|m: MappingView| m.is_representative).len(),
    decreases mappings.len(),
{
    reveal(Seq::filter);
    if mappings.len() > 0 {
        lemma_filter_view(mappings.drop_last());
        assert(mapping::mappings_view(mappings).drop_last() =~= mapping::mappings_view(
            mappings.drop_last(),
        ));
    }
}

/// With fewer than two reports there is nothing to cluster: each crash represents itself in the one
/// cluster there is.
pub proof fn law_lone_crashes_represent_themselves(
    r: ClusterMapResult,
    total_crashes: usize,
    reports: Seq<ParsedReport>,
)
    requires
        mapping::is_lone_map(r, total_crashes, reports),
    ensures
        r.total_crashes == total_crashes,
        r.unique_stacktraces == reports.len(),
        r.num_clusters == 1,
        r.mappings@.len() == reports.len(),
        forall|k: int|
            0 <= k < reports.len() ==> maps_report(#[trigger] r.mappings@[k], reports, k, k, 1),
        r.clusters@.dom() == set![1usize],
        r.clusters@[1]@.len() == reports.len(),
        forall|k: int|
            0 <= k < reports.len() ==> #[trigger] r.clusters@[1]@[k]@ == reports[k].crash@,
{
    let sorted = mapping::mappings_view(r.mappings@);
    let crashes = mapping::crash_names(reports);
    assert(sorted.len() == r.mappings@.len());
    assert forall|k: int| 0 <= k < reports.len() implies maps_report(
        #[trigger] r.mappings@[k],
        reports,
        k,
        k,
        1,
    ) by {
        assert(sorted[k] == r.mappings@[k]@);
        assert(sorted[k] == mapping::lone_entry(crashes[k]));
    }
    let table = mapping::table_view(r.clusters@);
    assert(table.dom() =~= r.clusters@.dom());
    assert(table.contains_key(1usize));
    assert(r.clusters@.dom() =~= set![1usize]);
    assert(table[1] == crashes);
    assert(crate::text::texts(r.clusters@[1]@) == crashes);
    assert(r.clusters@[1]@.len() == crate::text::texts(r.clusters@[1]@).len());
    assert forall|k: int| 0 <= k < reports.len() implies #[trigger] r.clusters@[1]@[k]@
        == reports[k].crash@ by {
        assert(crate::text::texts(r.clusters@[1]@)[k] == r.clusters@[1]@[k]@);
    }
}

/// In the outcome of a clustering every member of a group has an entry: with the cluster of its
/// representative's report, and with that crash as its representative if it is another.
pub proof fn law_every_member_of_a_group_has_its_entry(
    r: ClusterMapResult,
    total_crashes: usize,
    reports: Seq<ParsedReport>,
    groups: Map<usize, Seq<usize>>,
    clusters: Seq<ClusterView>,
    representative: usize,
    k: int,
)
    requires
        reports.len() <= usize::MAX,
        mapping::are_indices(groups, reports.len()),
        mapping::is_full_map(r, total_crashes, reports, groups, clusters),
        groups.contains_key(representative),
        0 <= k < groups[representative].len(),
    ensures
        exists|x: int|
            0 <= x < r.mappings@.len() && maps_report(
                #[trigger] r.mappings@[x],
                reports,
                groups[representative][k] as int,
                representative as int,
                cluster::cluster_of(clusters, reports[representative as int].report@),
            ),
        r.total_crashes == total_crashes,
        r.num_clusters == clusters.len(),
        r.unique_stacktraces == groups.dom().len(),
{
    law_a_group_shares_its_cluster(
        r,
        total_crashes,
        reports,
        groups,
        clusters,
        representative,
        k,
    );
    let member = groups[representative][k];
    let id = cluster::cluster_of(clusters, reports[representative as int].report@);
    let entry = mapping::entry_of(mapping::crash_names(reports), representative, member, id);
    let sorted = mapping::mappings_view(r.mappings@);
    let x = choose|x: int| 0 <= x < sorted.len() && sorted[x] == entry;
    assert(r.mappings@[x]@ == entry);
    assert(maps_report(r.mappings@[x], reports, member as int, representative as int, id));
}

/// In the outcome of a clustering every entry is that of a member of a group, there are as many
/// entries as reports, and they are in the order of the names of the crashes.
pub proof fn law_every_entry_is_that_of_a_member(
    r: ClusterMapResult,
    total_crashes: usize,
    reports: Seq<ParsedReport>,
    groups: Map<usize, Seq<usize>>,
    clusters: Seq<ClusterView>,
    x: int,
)
    requires
        reports.len() <= usize::MAX,
        group::is_partition(groups, reports.len()),
        mapping::is_full_map(r, total_crashes, reports, groups, clusters),
        0 <= x < r.mappings@.len(),
    ensures
        exists|representative: usize, k: int|
            groups.contains_key(representative) && 0 <= k < groups[representative].len()
                && maps_report(
                r.mappings@[x],
                reports,
                #[trigger] groups[representative][k] as int,
                representative as int,
                cluster::cluster_of(clusters, reports[representative as int].report@),
            ),
        r.mappings@.len() == reports.len(),
        forall|y: int|
            x < y < r.mappings@.len() ==> crate::text::text_le(
                r.mappings@[x].crash@,
                #[trigger] r.mappings@[y].crash@,
            ),
{
    law_every_crash_is_mapped(r, total_crashes, reports, groups, clusters);
    let crashes = mapping::crash_names(reports);
    let names = mapping::report_names(reports);
    let all = mapping::all_entries(reports, groups, clusters);
    let sorted = mapping::mappings_view(r.mappings@);
    assert(sorted[x] == r.mappings@[x]@);
    assert(sorted.contains(sorted[x]));
    lemma_sorted_holds(all, sorted, sorted[x]);
    let y = choose|y: int| 0 <= y < all.len() && all[y] == sorted[x];
    let from = lemma_entries_come_from_groups(
        crashes,
        names,
        groups,
        clusters,
        reports.len() as int,
        y,
    );
    let (representative, k) = from;
    assert(groups[representative][k] < reports.len());
    assert(groups[representative][0] == representative);
    assert(names[representative as int] == reports[representative as int].report@);
    assert(maps_report(
        r.mappings@[x],
        reports,
        groups[representative][k] as int,
        representative as int,
        cluster::cluster_of(clusters, reports[representative as int].report@),
    ));
    assert forall|y: int| x < y < r.mappings@.len() implies crate::text::text_le(
        r.mappings@[x].crash@,
        #[trigger] r.mappings@[y].crash@,
    ) by {
        assert(sorted[y] == r.mappings@[y]@);
    }
}

proof fn lemma_crashes_in_cluster(mappings: Seq<CrashMapping>, id: usize)
    ensures
        mapping::crashes_in(mapping::mappings_view(mappings), id) == mappings.filter(
            |m: CrashMapping| m.cluster_id == id,
        ).map_values(|m: CrashMapping| m.crash@),
    decreases mappings.len(),
{
    reveal(Seq::filter);
    let view = mapping::mappings_view(mappings);
    let in_cluster = |m: CrashMapping| m.cluster_id == id;
    let crash = |m: CrashMapping| m.crash@;
    if mappings.len() == 0 {
        assert(mapping::crashes_in(view, id) =~= mappings.filter(in_cluster).map_values(crash));
    } else {
        let rest = mappings.drop_last();
        lemma_crashes_in_cluster(rest, id);
        assert(view.drop_last() =~= mapping::mappings_view(rest));
        assert(view.last() == mappings.last()@);
        if mappings.last().cluster_id == id {
            assert(mapping::crashes_in(view, id) =~= mapping::crashes_in(
                view.drop_last(),
                id,
            ).push(mappings.last().crash@));
            assert(mappings.filter(in_cluster).map_values(crash) =~= rest.filter(
                in_cluster,
            ).map_values(crash).push(mappings.last().crash@));
        } else {
            assert(mapping::crashes_in(view, id) =~= mapping::crashes_in(view.drop_last(), id));
            assert(mappings.filter(in_cluster) =~= rest.filter(in_cluster));
        }
    }
}

/// The table of clusters has a row for exactly the clusters that entries name, and the row holds the
/// crashes of those entries, each as often as there are such entries.
pub proof fn law_the_table_holds_the_crashes_of_the_entries(
    r: ClusterMapResult,
    total_crashes: usize,
    reports: Seq<ParsedReport>,
    groups: Map<usize, Seq<usize>>,
    clusters: Seq<ClusterView>,
    id: usize,
)
    requires
        mapping::is_full_map(r, total_crashes, reports, groups, clusters),
    ensures
        r.clusters@.contains_key(id) <==> exists|x: int|
            0 <= x < r.mappings@.len() && (#[trigger] r.mappings@[x]).cluster_id == id,
        r.clusters@.contains_key(id) ==> r.clusters@[id]@.map_values(
            |s: String| s@,
        ).to_multiset() == r.mappings@.filter(|m: CrashMapping| m.cluster_id == id).map_values(
            |m: CrashMapping| m.crash@,
        ).to_multiset(),
{
    let sorted = mapping::mappings_view(r.mappings@);
    law_the_table_agrees_with_the_entries(r, total_crashes, reports, groups, clusters, id);
    lemma_crashes_in(sorted, id);
    lemma_crashes_in_cluster(r.mappings@, id);
    if exists|x: int| 0 <= x < sorted.len() && (#[trigger] sorted[x]).cluster_id == id {
        let x = choose|x: int| 0 <= x < sorted.len() && (#[trigger] sorted[x]).cluster_id == id;
        assert(r.mappings@[x].cluster_id == id);
    }
    if exists|x: int| 0 <= x < r.mappings@.len() && (#[trigger] r.mappings@[x]).cluster_id == id {
        let x = choose|x: int|
            0 <= x < r.mappings@.len() && (#[trigger] r.mappings@[x]).cluster_id == id;
        assert(sorted[x].cluster_id == id);
    }
    if r.clusters@.contains_key(id) {
        assert(mapping::table_view(r.clusters@)[id] =~= r.clusters@[id]@.map_values(
            |s: String| s@,
        ));
    }
}

/// The names of the crashes in the outcome are those of the reports, each as often.
pub proof fn law_the_outcome_names_the_crashes_of_the_reports(
    r: ClusterMapResult,
    reports: Seq<ParsedReport>,
)
    requires
        maps_every_crash(r, reports),
    ensures
        r.mappings@.map_values(|m: CrashMapping| m.crash@).to_multiset() == reports.map_values(
            |p: ParsedReport| p.crash@,
        ).to_multiset(),
{
    assert(mapping::entry_crashes(mapping::mappings_view(r.mappings@)) =~= r.mappings@.map_values(
        |m: CrashMapping| m.crash@,
    ));
    assert(mapping::crash_names(reports) =~= reports.map_values(|p: ParsedReport| p.crash@));
}

} // verus!

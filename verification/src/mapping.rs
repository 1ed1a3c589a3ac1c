//! The mapping of every crash to its cluster.
use std::collections::HashMap;

use vstd::prelude::*;

use crate::cluster;
use crate::cluster::{Cluster, ClusterView};
use crate::group;
use crate::group::ParsedReport;
use crate::text;

verus! {

/// Where one crash belongs.
#[derive(Debug)]
pub struct CrashMapping {
    /// File name of the crash.
    pub crash: String,
    /// Number of the cluster that the crash belongs to.
    pub cluster_id: usize,
    /// Whether the crash represents those with the same stack trace.
    pub is_representative: bool,
    /// The crash that represents this one, if it is another.
    pub representative: Option<String>,
}

/// The outcome of the clustering, with the mapping of every crash.
#[derive(Debug)]
pub struct ClusterMapResult {
    /// Number of crashes that were found.
    pub total_crashes: usize,
    /// Number of different stack traces.
    pub unique_stacktraces: usize,
    /// Number of clusters.
    pub num_clusters: usize,
    /// Where each crash belongs.
    pub mappings: Vec<CrashMapping>,
    /// The crashes of each cluster.
    pub clusters: HashMap<usize, Vec<String>>,
}

/// The model of [`CrashMapping`].
#[verifier::ext_equal]
pub struct MappingView {
    pub crash: Seq<char>,
    pub cluster_id: usize,
    pub is_representative: bool,
    pub representative: Option<Seq<char>>,
}

impl View for CrashMapping {
    type V = MappingView;

    open spec fn view(&self) -> MappingView {
        MappingView {
            crash: self.crash@,
            cluster_id: self.cluster_id,
            is_representative: self.is_representative,
            representative: match self.representative {
                Some(name) => Some(name@),
                None => None,
            },
        }
    }
}

/// The models of the entries.
pub open spec fn mappings_view(mappings: Seq<CrashMapping>) -> Seq<MappingView> {
    mappings.map_values(|m: CrashMapping| m@)
}

/// The entries for the crash `name`, in order.
pub open spec fn entries_named(entries: Seq<MappingView>, name: Seq<char>) -> Seq<MappingView> {
    entries.filter(|m: MappingView| m.crash == name)
}

/// The entries are in the order of their crash names.
pub open spec fn is_sorted(entries: Seq<MappingView>) -> bool {
    forall|i: int, j: int|
        0 <= i < j < entries.len() ==> text::text_le(
            (#[trigger] entries[i]).crash,
            (#[trigger] entries[j]).crash,
        )
}

/// `sorted` holds the entries of `entries` in the order of their crash names; those with the same
/// name keep their order.
pub open spec fn is_stable_sort(entries: Seq<MappingView>, sorted: Seq<MappingView>) -> bool {
    &&& is_sorted(sorted)
    &&& sorted.to_multiset() == entries.to_multiset()
    &&& forall|name: Seq<char>| #[trigger]
        entries_named(sorted, name) == entries_named(entries, name)
}

/// How many of the entries, which are in the order of their names, stand before or at this name.
fn insertion_point(sorted: &Vec<CrashMapping>, name: &String) -> (at: usize)
    requires
        is_sorted(mappings_view(sorted@)),
    ensures
        at <= sorted.len(),
        forall|i: int| 0 <= i < at ==> text::text_le(#[trigger] sorted[i].crash@, name@),
        forall|i: int|
            at <= i < sorted.len() ==> !text::text_le(#[trigger] sorted[i].crash@, name@),
{
    let ghost view = mappings_view(sorted@);
    let mut low: usize = 0;
    let mut high: usize = sorted.len();
    while low < high
        invariant
            low <= high <= sorted.len(),
            view == mappings_view(sorted@),
            is_sorted(view),
            forall|i: int| 0 <= i < low ==> text::text_le(#[trigger] sorted[i].crash@, name@),
            forall|i: int|
                high <= i < sorted.len() ==> !text::text_le(#[trigger] sorted[i].crash@, name@),
        decreases high - low,
    {
        let middle: usize = low + (high - low) / 2;
        if text::precedes(sorted[middle].crash.as_str(), name.as_str()) {
            assert forall|i: int| 0 <= i < middle + 1 implies text::text_le(
                #[trigger] sorted[i].crash@,
                name@,
            ) by {
                if i < middle {
                    assert(text::text_le(view[i].crash, view[middle as int].crash));
                    text::law_text_order_is_transitive(
                        sorted[i].crash@,
                        sorted[middle as int].crash@,
                        name@,
                    );
                }
            }
            low = middle + 1;
        } else {
            assert forall|i: int| middle <= i < sorted.len() implies !text::text_le(
                #[trigger] sorted[i].crash@,
                name@,
            ) by {
                if middle < i && text::text_le(sorted[i].crash@, name@) {
                    assert(text::text_le(view[middle as int].crash, view[i].crash));
                    text::law_text_order_is_transitive(
                        sorted[middle as int].crash@,
                        sorted[i].crash@,
                        name@,
                    );
                }
            }
            high = middle;
        }
    }
    low
}

proof fn lemma_insert_keeps_order(
    entries: Seq<MappingView>,
    sorted: Seq<MappingView>,
    at: int,
    entry: MappingView,
)
    requires
        is_stable_sort(entries, sorted),
        0 <= at <= sorted.len(),
        forall|i: int| 0 <= i < at ==> text::text_le((#[trigger] sorted[i]).crash, entry.crash),
        forall|i: int|
            at <= i < sorted.len() ==> !text::text_le((#[trigger] sorted[i]).crash, entry.crash),
    ensures
        is_stable_sort(entries.push(entry), sorted.insert(at, entry)),
{
    broadcast use vstd::seq_lib::group_to_multiset_ensures;

    let after = sorted.insert(at, entry);
    assert forall|i: int, j: int| 0 <= i < j < after.len() implies text::text_le(
        (#[trigger] after[i]).crash,
        (#[trigger] after[j]).crash,
    ) by {
        if i == at {
            text::law_text_order_is_total(entry.crash, sorted[j - 1].crash);
        }
    }
    let low = sorted.take(at);
    let high = sorted.skip(at);
    assert(sorted == low + high);
    assert(after == low.push(entry) + high);
    assert forall|name: Seq<char>| #[trigger]
        entries_named(after, name) == entries_named(entries.push(entry), name) by {
        let named = |m: MappingView| m.crash == name;
        assert(entries_named(sorted, name) == entries_named(entries, name));
        Seq::filter_distributes_over_add(low, high, named);
        Seq::filter_distributes_over_add(low.push(entry), high, named);
        assert(low.push(entry).drop_last() == low);
        assert(entries.push(entry).drop_last() == entries);
        reveal(Seq::filter);
        if entry.crash == name {
            assert forall|i: int| 0 <= i < high.len() implies !named(#[trigger] high[i]) by {
                assert(high[i] == sorted[at + i]);
                text::law_text_order_is_reflexive(name);
            }
            lemma_filter_none(high, named);
        }
    }
}

proof fn lemma_filter_none(entries: Seq<MappingView>, wanted: spec_fn(MappingView) -> bool)
    requires
        forall|i: int| 0 <= i < entries.len() ==> !wanted(#[trigger] entries[i]),
    ensures
        entries.filter(wanted) == Seq::<MappingView>::empty(),
    decreases entries.len(),
{
    reveal(Seq::filter);
    if entries.len() > 0 {
        lemma_filter_none(entries.drop_last(), wanted);
    }
}

/// The entries in the order of their crash names; those with the same name keep their order.
pub fn sort_mappings(mappings: Vec<CrashMapping>) -> (sorted: Vec<CrashMapping>)
    ensures
        is_stable_sort(mappings_view(mappings@), mappings_view(sorted@)),
{
    let mut sorted: Vec<CrashMapping> = Vec::new();
    let ghost all = mappings@;
    assert(mappings_view(all).take(0) == mappings_view(sorted@));
    for mapping in it: mappings
        invariant
            it.seq() == all,
            is_stable_sort(mappings_view(all).take(it.index()), mappings_view(sorted@)),
    {
        let ghost done = mappings_view(all).take(it.index());
        let ghost before = mappings_view(sorted@);
        let at = insertion_point(&sorted, &mapping.crash);
        proof {
            assert(before.len() == sorted.len());
            lemma_insert_keeps_order(done, before, at as int, mapping@);
            assert(done.push(mapping@) == mappings_view(all).take(it.index() + 1));
        }
        sorted.insert(at, mapping);
        assert(mappings_view(sorted@) == before.insert(at as int, mapping@));
    }
    assert(mappings_view(all).take(all.len() as int) == mappings_view(all));
    sorted
}

/// The names of the crashes among the entries that belong to cluster `id`, in order.
pub open spec fn crashes_in(entries: Seq<MappingView>, id: usize) -> Seq<Seq<char>> {
    entries.filter(|m: MappingView| m.cluster_id == id).map_values(|m: MappingView| m.crash)
}

/// The table of clusters for the entries: those clusters that an entry names, each with the
/// crashes that belong to it, in order.
pub open spec fn table_of(entries: Seq<MappingView>) -> Map<usize, Seq<Seq<char>>> {
    Map::new(
        |id: usize| crashes_in(entries, id).len() > 0,
        |id: usize| crashes_in(entries, id),
    )
}

/// The model of a table of clusters.
pub open spec fn table_view(table: Map<usize, Vec<String>>) -> Map<usize, Seq<Seq<char>>> {
    table.map_values(|crashes: Vec<String>| text::texts(crashes@))
}

proof fn lemma_crashes_in_push(entries: Seq<MappingView>, entry: MappingView, id: usize)
    ensures
        crashes_in(entries.push(entry), id) == if entry.cluster_id == id {
            crashes_in(entries, id).push(entry.crash)
        } else {
            crashes_in(entries, id)
        },
{
    reveal(Seq::filter);
    assert(entries.push(entry).drop_last() == entries);
    assert(crashes_in(entries.push(entry), id) =~= if entry.cluster_id == id {
        crashes_in(entries, id).push(entry.crash)
    } else {
        crashes_in(entries, id)
    });
}

/// The table of clusters for the entries.
pub fn cluster_table(mappings: &Vec<CrashMapping>) -> (table: HashMap<usize, Vec<String>>)
    ensures
        table_view(table@) == table_of(mappings_view(mappings@)),
{
    let ghost all = mappings_view(mappings@);
    let mut table: HashMap<usize, Vec<String>> = HashMap::new();
    let mut i: usize = 0;
    proof {
        reveal(Seq::filter);
    }
    assert(all.take(0) == Seq::<MappingView>::empty());
    assert(table_view(table@) == table_of(all.take(0)));
    while i < mappings.len()
        invariant
            i <= mappings.len(),
            all == mappings_view(mappings@),
            table_view(table@) == table_of(all.take(i as int)),
        decreases mappings.len() - i,
    {
        let id = mappings[i].cluster_id;
        let ghost done = all.take(i as int);
        let ghost before = table_view(table@);
        let ghost entry = mappings[i as int]@;
        assert(done.push(entry) == all.take(i + 1));
        proof {
            lemma_crashes_in_push(done, entry, id);
        }
        let mut crashes: Vec<String> = match table.remove(&id) {
            Some(crashes) => crashes,
            None => Vec::new(),
        };
        assert(text::texts(crashes@) == crashes_in(done, id)) by {
            if before.contains_key(id) {
                assert(before[id] == table_of(done)[id]);
            } else {
                assert(!table_of(done).contains_key(id));
                assert(crashes_in(done, id) =~= Seq::empty());
            }
        }
        let ghost earlier = crashes@;
        crashes.push(mappings[i].crash.clone());
        assert(text::texts(crashes@) == text::texts(earlier).push(entry.crash));
        table.insert(id, crashes);
        assert(table_view(table@) =~= table_of(done.push(entry))) by {
            let after = table_view(table@);
            let goal = table_of(done.push(entry));
            assert forall|other: usize| #[trigger]
                after.contains_key(other) == goal.contains_key(other) && (after.contains_key(other)
                    ==> after[other] == goal[other]) by {
                lemma_crashes_in_push(done, entry, other);
                assert(before.contains_key(other) == table_of(done).contains_key(other));
                if other != id && before.contains_key(other) {
                    assert(after[other] == before[other]);
                    assert(before[other] == table_of(done)[other]);
                }
            }
        }
        i += 1;
    }
    assert(all.take(i as int) == all);
    table
}

/// The file names of the crashes.
pub open spec fn crash_names(reports: Seq<ParsedReport>) -> Seq<Seq<char>> {
    reports.map_values(|r: ParsedReport| r.crash@)
}

/// The file names of the reports.
pub open spec fn report_names(reports: Seq<ParsedReport>) -> Seq<Seq<char>> {
    reports.map_values(|r: ParsedReport| r.report@)
}

/// The entry for the crash at index `member` of the group that `representative` leads, in cluster
/// `id`.
pub open spec fn entry_of(
    crashes: Seq<Seq<char>>,
    representative: usize,
    member: usize,
    id: usize,
) -> MappingView {
    MappingView {
        crash: crashes[member as int],
        cluster_id: id,
        is_representative: member == representative,
        representative: if member == representative {
            None
        } else {
            Some(crashes[representative as int])
        },
    }
}

/// The entries for a group of crashes in cluster `id`.
pub open spec fn group_entries(
    crashes: Seq<Seq<char>>,
    representative: usize,
    members: Seq<usize>,
    id: usize,
) -> Seq<MappingView> {
    members.map_values(|m: usize| entry_of(crashes, representative, m, id))
}

/// The entries for the groups whose representatives are below `n`, in their order. The crashes of
/// a group belong to the cluster that holds the report of its representative.
pub open spec fn entries_of(
    crashes: Seq<Seq<char>>,
    reports: Seq<Seq<char>>,
    groups: Map<usize, Seq<usize>>,
    clusters: Seq<ClusterView>,
    n: int,
) -> Seq<MappingView>
    decreases n,
{
    if n <= 0 {
        Seq::empty()
    } else {
        let r = (n - 1) as usize;
        let before = entries_of(crashes, reports, groups, clusters, n - 1);
        if groups.contains_key(r) {
            before + group_entries(
                crashes,
                r,
                groups[r],
                cluster::cluster_of(clusters, reports[r as int]),
            )
        } else {
            before
        }
    }
}

/// The groups speak of the first `n` crashes only.
pub open spec fn are_indices(groups: Map<usize, Seq<usize>>, n: nat) -> bool {
    forall|r: usize| #[trigger]
        groups.contains_key(r) ==> r < n && forall|k: int|
            0 <= k < groups[r].len() ==> #[trigger] groups[r][k] < n
}

/// Appends the entries for a group of crashes in cluster `id`.
fn push_group(
    mappings: &mut Vec<CrashMapping>,
    reports: &Vec<ParsedReport>,
    representative: usize,
    members: &Vec<usize>,
    id: usize,
)
    requires
        representative < reports@.len(),
        forall|k: int| 0 <= k < members@.len() ==> #[trigger] members@[k] < reports@.len(),
    ensures
        mappings_view(final(mappings)@) == mappings_view(old(mappings)@) + group_entries(
            crash_names(reports@),
            representative,
            members@,
            id,
        ),
{
    let ghost start = mappings_view(mappings@);
    let ghost added = group_entries(crash_names(reports@), representative, members@, id);
    let mut k: usize = 0;
    assert(start + added.take(0) == start);
    while k < members.len()
        invariant
            k <= members.len(),
            representative < reports@.len(),
            forall|k: int| 0 <= k < members@.len() ==> #[trigger] members@[k] < reports@.len(),
            added == group_entries(crash_names(reports@), representative, members@, id),
            mappings_view(mappings@) == start + added.take(k as int),
        decreases members.len() - k,
    {
        let member: usize = members[k];
        let ghost before = mappings@;
        let is_representative = member == representative;
        let mapping = CrashMapping {
            crash: reports[member].crash.clone(),
            cluster_id: id,
            is_representative,
            representative: if is_representative {
                None
            } else {
                Some(reports[representative].crash.clone())
            },
        };
        assert(mapping@ == added[k as int]);
        mappings.push(mapping);
        assert(mappings_view(mappings@) == mappings_view(before).push(added[k as int]));
        assert(start + added.take(k + 1) == (start + added.take(k as int)).push(added[k as int]));
        k += 1;
    }
    assert(added.take(k as int) == added);
}

/// The entries for all the reports.
pub open spec fn all_entries(
    reports: Seq<ParsedReport>,
    groups: Map<usize, Seq<usize>>,
    clusters: Seq<ClusterView>,
) -> Seq<MappingView> {
    entries_of(
        crash_names(reports),
        report_names(reports),
        groups,
        clusters,
        reports.len() as int,
    )
}

/// `r` is the outcome for reports in these groups and clusters: it counts them, holds the entries
/// of all the reports in the order of the crash names, and the table of clusters.
pub open spec fn is_full_map(
    r: ClusterMapResult,
    total_crashes: usize,
    reports: Seq<ParsedReport>,
    groups: Map<usize, Seq<usize>>,
    clusters: Seq<ClusterView>,
) -> bool {
    &&& r.total_crashes == total_crashes
    &&& r.unique_stacktraces == groups.len()
    &&& r.num_clusters == clusters.len()
    &&& is_stable_sort(all_entries(reports, groups, clusters), mappings_view(r.mappings@))
    &&& table_view(r.clusters@) == table_of(all_entries(reports, groups, clusters))
}

/// The outcome for reports in several groups: every crash belongs to the cluster that holds the
/// report of its representative.
pub fn map_crashes(
    total_crashes: usize,
    reports: &Vec<ParsedReport>,
    groups: &HashMap<usize, Vec<usize>>,
    clusters: &Vec<Cluster>,
) -> (r: ClusterMapResult)
    requires
        are_indices(group::members(groups@), reports@.len()),
    ensures
        is_full_map(
            r,
            total_crashes,
            reports@,
            group::members(groups@),
            cluster::clusters_view(clusters@),
        ),
{
    let ghost m = group::members(groups@);
    let ghost c = cluster::clusters_view(clusters@);
    let mut mappings: Vec<CrashMapping> = Vec::new();
    let mut i: usize = 0;
    assert(mappings_view(mappings@) == Seq::<MappingView>::empty());
    while i < reports.len()
        invariant
            i <= reports.len(),
            m == group::members(groups@),
            c == cluster::clusters_view(clusters@),
            are_indices(m, reports@.len()),
            mappings_view(mappings@) == entries_of(
                crash_names(reports@),
                report_names(reports@),
                m,
                c,
                i as int,
            ),
        decreases reports.len() - i,
    {
        match groups.get(&i) {
            Some(members) => {
                assert(m.contains_key(i) && m[i] == members@);
                let id = cluster::find_cluster(clusters, &reports[i].report);
                push_group(&mut mappings, reports, i, members, id);
            },
            None => {
                assert(!m.contains_key(i));
            },
        }
        i += 1;
    }
    let table = cluster_table(&mappings);
    assert(m.dom() =~= groups@.dom());
    ClusterMapResult {
        total_crashes,
        unique_stacktraces: groups.len(),
        num_clusters: clusters.len(),
        mappings: sort_mappings(mappings),
        clusters: table,
    }
}

/// The entry for a crash that stands alone, in the first cluster.
pub open spec fn lone_entry(crash: Seq<char>) -> MappingView {
    MappingView { crash, cluster_id: 1, is_representative: true, representative: None }
}

/// The names of the crashes of the entries.
pub open spec fn entry_crashes(entries: Seq<MappingView>) -> Seq<Seq<char>> {
    entries.map_values(|m: MappingView| m.crash)
}

/// The table of clusters with one cluster, the first.
fn single_cluster(crashes: Vec<String>) -> (table: HashMap<usize, Vec<String>>)
    ensures
        table_view(table@) == map![1usize => text::texts(crashes@)],
{
    let mut table: HashMap<usize, Vec<String>> = HashMap::new();
    table.insert(1, crashes);
    assert(table_view(table@) =~= map![1usize => text::texts(crashes@)]);
    table
}

/// `r` is the outcome with one cluster in which each crash represents itself.
pub open spec fn is_lone_map(
    r: ClusterMapResult,
    total_crashes: usize,
    reports: Seq<ParsedReport>,
) -> bool {
    &&& r.total_crashes == total_crashes
    &&& r.unique_stacktraces == reports.len()
    &&& r.num_clusters == 1
    &&& mappings_view(r.mappings@) == crash_names(reports).map_values(
        |crash: Seq<char>| lone_entry(crash),
    )
    &&& table_view(r.clusters@) == map![1usize => crash_names(reports)]
}

/// The outcome for fewer reports than a clustering needs: one cluster, in which each crash
/// represents itself.
pub fn map_lone_crashes(total_crashes: usize, reports: &Vec<ParsedReport>) -> (r: ClusterMapResult)
    ensures
        is_lone_map(r, total_crashes, reports@),
{
    let ghost names = crash_names(reports@);
    let mut mappings: Vec<CrashMapping> = Vec::new();
    let mut crashes: Vec<String> = Vec::new();
    let mut i: usize = 0;
    while i < reports.len()
        invariant
            i <= reports.len(),
            names == crash_names(reports@),
            mappings@.len() == i,
            crashes@.len() == i,
            forall|j: int|
                0 <= j < i ==> (#[trigger] mappings_view(mappings@)[j]) == lone_entry(names[j]),
            forall|j: int| 0 <= j < i ==> (#[trigger] text::texts(crashes@)[j]) == names[j],
        decreases reports.len() - i,
    {
        let ghost entries = mappings_view(mappings@);
        let ghost found = text::texts(crashes@);
        mappings.push(
            CrashMapping {
                crash: reports[i].crash.clone(),
                cluster_id: 1,
                is_representative: true,
                representative: None,
            },
        );
        crashes.push(reports[i].crash.clone());
        assert(mappings_view(mappings@) == entries.push(lone_entry(names[i as int])));
        assert(text::texts(crashes@) == found.push(names[i as int]));
        i += 1;
    }
    assert(text::texts(crashes@) == names);
    assert(mappings_view(mappings@) =~= names.map_values(|crash: Seq<char>| lone_entry(crash)));
    ClusterMapResult {
        total_crashes,
        unique_stacktraces: reports.len(),
        num_clusters: 1,
        mappings,
        clusters: single_cluster(crashes),
    }
}

/// The first `n` indices.
pub open spec fn indices(n: nat) -> Seq<usize> {
    Seq::new(n, |i: int| i as usize)
}

/// `r` is the outcome with one cluster in which the first crash represents the others. Its entries
/// are in the order of the crash names, and so are the crashes of the cluster.
pub open spec fn is_equal_map(
    r: ClusterMapResult,
    total_crashes: usize,
    unique_stacktraces: nat,
    reports: Seq<ParsedReport>,
) -> bool {
    &&& r.total_crashes == total_crashes
    &&& r.unique_stacktraces == unique_stacktraces
    &&& r.num_clusters == 1
    &&& is_stable_sort(
        group_entries(crash_names(reports), 0, indices(reports.len()), 1),
        mappings_view(r.mappings@),
    )
    &&& table_view(r.clusters@) == map![1usize => entry_crashes(mappings_view(r.mappings@))]
}

/// The outcome for reports with one stack trace: one cluster, in which the first crash represents
/// the others.
pub fn map_equal_crashes(
    total_crashes: usize,
    unique_stacktraces: usize,
    reports: &Vec<ParsedReport>,
) -> (r: ClusterMapResult)
    ensures
        is_equal_map(r, total_crashes, unique_stacktraces as nat, reports@),
{
    let mut members: Vec<usize> = Vec::new();
    let mut i: usize = 0;
    while i < reports.len()
        invariant
            i <= reports.len(),
            members@ == indices(i as nat),
        decreases reports.len() - i,
    {
        members.push(i);
        i += 1;
    }
    let mut mappings: Vec<CrashMapping> = Vec::new();
    if reports.len() > 0 {
        push_group(&mut mappings, reports, 0, &members, 1);
    }
    assert(mappings_view(mappings@) =~= group_entries(
        crash_names(reports@),
        0,
        indices(reports@.len()),
        1,
    ));
    let mappings = sort_mappings(mappings);
    let mut crashes: Vec<String> = Vec::new();
    let ghost names = entry_crashes(mappings_view(mappings@));
    let mut i: usize = 0;
    while i < mappings.len()
        invariant
            i <= mappings.len(),
            names == entry_crashes(mappings_view(mappings@)),
            text::texts(crashes@) == names.take(i as int),
        decreases mappings.len() - i,
    {
        let ghost found = text::texts(crashes@);
        crashes.push(mappings[i].crash.clone());
        assert(text::texts(crashes@) == found.push(names[i as int]));
        assert(names.take(i + 1) == found.push(names[i as int]));
        i += 1;
    }
    assert(names.take(i as int) == names);
    ClusterMapResult {
        total_crashes,
        unique_stacktraces,
        num_clusters: 1,
        mappings,
        clusters: single_cluster(crashes),
    }
}

/// Sorting keeps every entry as often as it was there, puts the entries in the order of the names of
/// their crashes, and leaves entries for one crash in the order in which they were.
pub proof fn law_sorting_keeps_the_entries(
    entries: Seq<MappingView>,
    sorted: Seq<MappingView>,
    name: Seq<char>,
)
    requires
        is_stable_sort(entries, sorted),
    ensures
        sorted.len() == entries.len(),
        sorted.to_multiset() == entries.to_multiset(),
        forall|i: int, j: int|
            0 <= i < j < sorted.len() ==> text::text_le(
                (#[trigger] sorted[i]).crash,
                (#[trigger] sorted[j]).crash,
            ),
        sorted.filter(|m: MappingView| m.crash == name) == entries.filter(
            |m: MappingView| m.crash == name,
        ),
{
    broadcast use vstd::seq_lib::group_to_multiset_ensures;

    assert(sorted.len() == sorted.to_multiset().len());
    assert(entries.len() == entries.to_multiset().len());
    assert(entries_named(sorted, name) == entries_named(entries, name));
}

/// The table of clusters has a row for each cluster that an entry names, with the crashes of the
/// entries that name it, in their order.
pub proof fn law_the_table_lists_the_crashes_of_each_cluster(entries: Seq<MappingView>, id: usize)
    ensures
        table_of(entries).contains_key(id) <==> exists|i: int|
            0 <= i < entries.len() && (#[trigger] entries[i]).cluster_id == id,
        table_of(entries).contains_key(id) ==> table_of(entries)[id] == entries.filter(
            |m: MappingView| m.cluster_id == id,
        ).map_values(|m: MappingView| m.crash),
    decreases entries.len(),
{
    reveal(Seq::filter);
    if entries.len() > 0 {
        let rest = entries.drop_last();
        law_the_table_lists_the_crashes_of_each_cluster(rest, id);
        assert(rest.push(entries.last()) =~= entries);
        lemma_crashes_in_push(rest, entries.last(), id);
        if exists|i: int| 0 <= i < rest.len() && (#[trigger] rest[i]).cluster_id == id {
            let i = choose|i: int| 0 <= i < rest.len() && (#[trigger] rest[i]).cluster_id == id;
            assert(entries[i].cluster_id == id);
        }
        if exists|i: int| 0 <= i < entries.len() && (#[trigger] entries[i]).cluster_id == id {
            let i = choose|i: int|
                0 <= i < entries.len() && (#[trigger] entries[i]).cluster_id == id;
            if i < rest.len() {
                assert(rest[i].cluster_id == id);
            }
        }
        if entries.last().cluster_id == id {
            assert(entries[entries.len() - 1].cluster_id == id);
        }
    }
}

/// The models of entries and tables hold all that the entries and tables do.
pub proof fn law_the_models_of_the_outcome_are_complete(
    mappings: Seq<CrashMapping>,
    table: Map<usize, Vec<String>>,
)
    ensures
        mappings_view(mappings).len() == mappings.len(),
        forall|i: int|
            0 <= i < mappings.len() ==> {
                &&& (#[trigger] mappings_view(mappings)[i]).crash == mappings[i].crash@
                &&& mappings_view(mappings)[i].cluster_id == mappings[i].cluster_id
                &&& mappings_view(mappings)[i].is_representative == mappings[i].is_representative
                &&& mappings_view(mappings)[i].representative is Some
                    <==> mappings[i].representative is Some
                &&& mappings[i].representative is Some ==> mappings_view(
                    mappings,
                )[i].representative->0 == mappings[i].representative->0@
            },
        table_view(table).dom() == table.dom(),
        forall|id: usize, k: int|
            #![trigger table_view(table)[id][k]]
            table.contains_key(id) ==> table_view(table)[id].len() == table[id]@.len() && (0 <= k
                < table[id]@.len() ==> table_view(table)[id][k] == table[id]@[k]@),
{
    assert(table_view(table).dom() =~= table.dom());
}

} // verus!

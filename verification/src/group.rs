//! Grouping of crash reports with the same stack trace.
use std::collections::HashMap;

use vstd::prelude::*;

use crate::stacktrace;
use crate::stacktrace::{Frame, FrameView};

verus! {

/// A crash whose report was read.
#[derive(Debug)]
pub struct ParsedReport {
    /// File name of the crash.
    pub crash: String,
    /// File name of its report.
    pub report: String,
    /// Stack trace in the report.
    pub frames: Vec<Frame>,
}

/// The stack traces of the reports.
pub open spec fn traces(reports: Seq<ParsedReport>) -> Seq<Seq<FrameView>> {
    reports.map_values(|r: ParsedReport| stacktrace::frames_view(r.frames@))
}

/// Trace `i` agrees with a marked trace before it.
pub open spec fn is_follower(traces: Seq<Seq<FrameView>>, unique: Seq<bool>, i: int) -> bool {
    exists|j: int|
        0 <= j < i && unique[j] && stacktrace::same_trace(traces[i], #[trigger] traces[j])
}

/// `unique` marks the first of each kind among `traces`: those that agree with no marked trace
/// before them.
pub open spec fn is_dedup(traces: Seq<Seq<FrameView>>, unique: Seq<bool>) -> bool {
    &&& unique.len() == traces.len()
    &&& forall|i: int| 0 <= i < unique.len() ==> #[trigger] unique[i] != is_follower(traces, unique, i)
}

/// The marks on the first of each kind among `traces`.
pub open spec fn marks(traces: Seq<Seq<FrameView>>) -> Seq<bool>
    decreases traces.len(),
{
    if traces.len() == 0 {
        Seq::empty()
    } else {
        let before = marks(traces.drop_last());
        before.push(!is_follower(traces, before, traces.len() - 1))
    }
}

/// Any two of the traces that agree have the same places.
pub open spec fn agree_at_places(traces: Seq<Seq<FrameView>>) -> bool {
    forall|i: int, j: int|
        0 <= j < i < traces.len() && stacktrace::same_trace(
            #[trigger] traces[i],
            #[trigger] traces[j],
        ) ==> stacktrace::places(traces[i]) == stacktrace::places(traces[j])
}

/// No trace before trace `i` agrees with it.
pub open spec fn is_new(traces: Seq<Seq<FrameView>>, i: int) -> bool {
    forall|j: int| 0 <= j < i ==> !stacktrace::same_trace(traces[i], #[trigger] traces[j])
}

/// The marks that `libcasr::stacktrace::dedup_stacktraces` sets on the stack traces of the
/// reports.
///
/// That function inserts the traces one after the other into a hash set, and marks those that the
/// set took: those that are equal to none before. The hash of a frame is that of its place, while
/// frames with different places can be equal. Where such frames meet, the standard library leaves
/// open what a hash set does, so all traces that agree have to have the same places.
#[verifier::external_body]
fn dedup_stacktraces(reports: &Vec<ParsedReport>) -> (unique: Vec<bool>)
    requires
        agree_at_places(traces(reports@)),
    ensures
        unique@.len() == reports@.len(),
        forall|i: int|
            0 <= i < unique@.len() ==> #[trigger] unique@[i] == is_new(traces(reports@), i),
{
    let raw = |f: &Frame| libcasr::stacktrace::StacktraceEntry {
        address: f.address,
        function: f.function.clone(),
        module: f.module.clone(),
        offset: f.offset,
        debug: libcasr::stacktrace::DebugInfo {
            file: f.debug.file.clone(),
            line: f.debug.line,
            column: f.debug.column,
        },
    };
    let raws: Vec<_> = reports.iter().map(|r| r.frames.iter().map(raw).collect()).collect();
    libcasr::stacktrace::dedup_stacktraces(&raws)
}

/// Whether any two of the reports' stack traces that agree have the same places.
fn places_tell(reports: &Vec<ParsedReport>) -> (r: bool)
    ensures
        r == agree_at_places(traces(reports@)),
{
    let ghost t = traces(reports@);
    let mut i: usize = 0;
    while i < reports.len()
        invariant
            i <= reports.len(),
            t == traces(reports@),
            forall|x: int, y: int|
                0 <= y < x < i && stacktrace::same_trace(#[trigger] t[x], #[trigger] t[y])
                    ==> stacktrace::places(t[x]) == stacktrace::places(t[y]),
        decreases reports.len() - i,
    {
        let mut j: usize = 0;
        while j < i
            invariant
                j <= i < reports.len(),
                t == traces(reports@),
                forall|y: int|
                    0 <= y < j && stacktrace::same_trace(t[i as int], #[trigger] t[y])
                        ==> stacktrace::places(t[i as int]) == stacktrace::places(t[y]),
            decreases i - j,
        {
            if stacktrace::equal_traces(&reports[i].frames, &reports[j].frames)
                && !stacktrace::equal_places(&reports[i].frames, &reports[j].frames) {
                assert(stacktrace::same_trace(t[i as int], t[j as int]));
                return false;
            }
            j += 1;
        }
        i += 1;
    }
    true
}

/// The marks on the first of each kind among the reports' stack traces.
fn first_marks(reports: &Vec<ParsedReport>) -> (unique: Vec<bool>)
    ensures
        is_dedup(traces(reports@), unique@),
{
    let ghost t = traces(reports@);
    let mut unique: Vec<bool> = Vec::new();
    while unique.len() < reports.len()
        invariant
            unique.len() <= reports.len(),
            t == traces(reports@),
            forall|i: int| 0 <= i < unique.len() ==> #[trigger] unique[i] != is_follower(t, unique@, i),
        decreases reports.len() - unique.len(),
    {
        let i: usize = unique.len();
        let mut j: usize = 0;
        let mut found: bool = false;
        while j < i
            invariant
                j <= i == unique.len() < reports.len(),
                t == traces(reports@),
                found <==> exists|k: int|
                    0 <= k < j && unique@[k] && stacktrace::same_trace(
                        t[i as int],
                        #[trigger] t[k],
                    ),
            decreases i - j,
        {
            if unique[j] && stacktrace::equal_traces(&reports[i].frames, &reports[j].frames) {
                assert(stacktrace::same_trace(t[i as int], t[j as int]));
                found = true;
            }
            j += 1;
        }
        let ghost before = unique@;
        unique.push(!found);
        proof {
            assert forall|k: int| 0 <= k < unique.len() implies #[trigger] unique[k] != is_follower(
                t,
                unique@,
                k,
            ) by {
                lemma_follower_prefix(t, before, unique@, k);
                if k < i {
                    assert(unique[k] == before[k]);
                }
            }
        }
    }
    unique
}

proof fn lemma_follower_prefix(
    traces: Seq<Seq<FrameView>>,
    short: Seq<bool>,
    long: Seq<bool>,
    i: int,
)
    requires
        0 <= i <= short.len() <= long.len(),
        forall|k: int| 0 <= k < short.len() ==> short[k] == #[trigger] long[k],
    ensures
        is_follower(traces, short, i) == is_follower(traces, long, i),
{
    if is_follower(traces, short, i) {
        let j = choose|j: int|
            0 <= j < i && short[j] && stacktrace::same_trace(traces[i], #[trigger] traces[j]);
        assert(long[j] && stacktrace::same_trace(traces[i], traces[j]));
    }
    if is_follower(traces, long, i) {
        let j = choose|j: int|
            0 <= j < i && long[j] && stacktrace::same_trace(traces[i], #[trigger] traces[j]);
        assert(short[j] && stacktrace::same_trace(traces[i], traces[j]));
    }
}

proof fn lemma_first_new(traces: Seq<Seq<FrameView>>, i: int, from: int) -> (j: int)
    requires
        agree_at_places(traces),
        0 <= from < i < traces.len(),
        stacktrace::same_trace(traces[i], traces[from]),
    ensures
        0 <= j < i,
        is_new(traces, j),
        stacktrace::same_trace(traces[i], traces[j]),
    decreases from,
{
    if is_new(traces, from) {
        from
    } else {
        let k = choose|k: int|
            0 <= k < from && stacktrace::same_trace(traces[from], #[trigger] traces[k]);
        assert(stacktrace::places(traces[i]) == stacktrace::places(traces[from]));
        assert(stacktrace::places(traces[from]) == stacktrace::places(traces[k]));
        stacktrace::law_same_places_are_the_same_trace(traces[i], traces[k]);
        lemma_first_new(traces, i, k)
    }
}

/// Where traces agree only at the same places, the first of each kind are those that no trace
/// before them agrees with.
pub proof fn law_new_traces_are_the_first_of_their_kind(
    traces: Seq<Seq<FrameView>>,
    unique: Seq<bool>,
)
    requires
        agree_at_places(traces),
        unique.len() == traces.len(),
        forall|i: int| 0 <= i < unique.len() ==> #[trigger] unique[i] == is_new(traces, i),
    ensures
        is_dedup(traces, unique),
{
    assert forall|i: int| 0 <= i < unique.len() implies #[trigger] unique[i] != is_follower(
        traces,
        unique,
        i,
    ) by {
        if !is_new(traces, i) {
            let from = choose|from: int|
                0 <= from < i && stacktrace::same_trace(traces[i], #[trigger] traces[from]);
            let j = lemma_first_new(traces, i, from);
            assert(unique[j]);
        }
    }
}

/// There are marks on the first of each kind.
pub proof fn law_marks_are_a_dedup(traces: Seq<Seq<FrameView>>)
    ensures
        is_dedup(traces, marks(traces)),
    decreases traces.len(),
{
    if traces.len() > 0 {
        let n = traces.len() - 1;
        let rest = traces.drop_last();
        let before = marks(rest);
        let unique = marks(traces);
        law_marks_are_a_dedup(rest);
        assert forall|i: int| 0 <= i < unique.len() implies #[trigger] unique[i] != is_follower(
            traces,
            unique,
            i,
        ) by {
            lemma_follower_prefix(traces, before, unique, i);
            if i < n {
                lemma_follower_drop_last(traces, before, i);
                assert(before[i] != is_follower(rest, before, i));
                assert(unique[i] == before[i]);
            }
        }
    }
}

proof fn lemma_follower_drop_last(traces: Seq<Seq<FrameView>>, unique: Seq<bool>, i: int)
    requires
        0 <= i < traces.len() - 1,
    ensures
        is_follower(traces, unique, i) == is_follower(traces.drop_last(), unique, i),
{
    let rest = traces.drop_last();
    if is_follower(traces, unique, i) {
        let j = choose|j: int|
            0 <= j < i && unique[j] && stacktrace::same_trace(traces[i], #[trigger] traces[j]);
        assert(stacktrace::same_trace(rest[i], rest[j]));
    }
    if is_follower(rest, unique, i) {
        let j = choose|j: int|
            0 <= j < i && unique[j] && stacktrace::same_trace(rest[i], #[trigger] rest[j]);
        assert(stacktrace::same_trace(traces[i], traces[j]));
    }
}

/// The marks on the first of each kind are determined.
pub proof fn law_marks_are_determined(traces: Seq<Seq<FrameView>>, unique: Seq<bool>)
    requires
        is_dedup(traces, unique),
    ensures
        unique == marks(traces),
    decreases traces.len(),
{
    if traces.len() == 0 {
        assert(unique =~= marks(traces));
    } else {
        let n = traces.len() - 1;
        let rest = traces.drop_last();
        let before = unique.drop_last();
        assert forall|i: int| 0 <= i < before.len() implies #[trigger] before[i] != is_follower(
            rest,
            before,
            i,
        ) by {
            lemma_follower_prefix(traces, before, unique, i);
            assert(unique[i] == before[i]);
            lemma_follower_drop_last(traces, before, i);
        }
        law_marks_are_determined(rest, before);
        lemma_follower_prefix(traces, before, unique, n);
        assert(unique[n] != is_follower(traces, unique, n));
        assert(unique =~= before.push(unique[n]));
    }
}

/// The least index, not below `from`, of a marked trace that agrees with trace `i`.
pub open spec fn first_match(
    traces: Seq<Seq<FrameView>>,
    unique: Seq<bool>,
    i: int,
    from: int,
) -> Option<int>
    decreases traces.len() - from,
{
    if from >= traces.len() {
        None
    } else if unique[from] && stacktrace::same_trace(traces[i], traces[from]) {
        Some(from)
    } else {
        first_match(traces, unique, i, from + 1)
    }
}

/// The unmarked traces below `n` whose first match is `representative`, in order.
pub open spec fn followers(
    traces: Seq<Seq<FrameView>>,
    unique: Seq<bool>,
    representative: int,
    n: int,
) -> Seq<usize>
    decreases n,
{
    if n <= 0 {
        Seq::empty()
    } else {
        let before = followers(traces, unique, representative, n - 1);
        if !unique[n - 1] && first_match(traces, unique, n - 1, 0) == Some(representative) {
            before.push((n - 1) as usize)
        } else {
            before
        }
    }
}

/// The groups of traces: one for each marked trace, which leads it; each unmarked trace follows in
/// the group of the first marked trace that agrees with it.
pub open spec fn grouping(traces: Seq<Seq<FrameView>>, unique: Seq<bool>) -> Map<
    usize,
    Seq<usize>,
> {
    Map::new(
        |r: usize| r < traces.len() && unique[r as int],
        |r: usize| seq![r] + followers(traces, unique, r as int, traces.len() as int),
    )
}

/// The members of the groups, by representative.
pub open spec fn members(groups: Map<usize, Vec<usize>>) -> Map<usize, Seq<usize>> {
    groups.map_values(|m: Vec<usize>| m@)
}

/// The groups of the reports for given marks: each marked report leads a group, and each unmarked
/// one follows in the group of the first marked report whose stack trace agrees with its own.
pub fn group_by_marks(reports: &Vec<ParsedReport>, unique: &Vec<bool>) -> (groups: HashMap<
    usize,
    Vec<usize>,
>)
    requires
        unique.len() == reports.len(),
    ensures
        members(groups@) == grouping(traces(reports@), unique@),
{
    let ghost t = traces(reports@);
    let ghost u = unique@;
    let mut groups: HashMap<usize, Vec<usize>> = HashMap::new();
    let mut i: usize = 0;
    while i < unique.len()
        invariant
            i <= unique.len(),
            u == unique@,
            forall|r: usize| #[trigger] groups@.contains_key(r) <==> r < i && u[r as int],
            forall|r: usize| #[trigger] groups@.contains_key(r) ==> groups@[r]@ == seq![r],
        decreases unique.len() - i,
    {
        if unique[i] {
            let mut group: Vec<usize> = Vec::new();
            group.push(i);
            groups.insert(i, group);
            assert(group@ == seq![i]);
        }
        i += 1;
    }
    let mut i: usize = 0;
    while i < unique.len()
        invariant
            i <= unique.len(),
            unique.len() == reports.len(),
            t == traces(reports@),
            u == unique@,
            forall|r: usize| #[trigger] groups@.contains_key(r) <==> r < u.len() && u[r as int],
            forall|r: usize| #[trigger]
                groups@.contains_key(r) ==> groups@[r]@ == seq![r] + followers(
                    t,
                    u,
                    r as int,
                    i as int,
                ),
        decreases unique.len() - i,
    {
        let ghost before = groups@;
        if !unique[i] {
            let mut j: usize = 0;
            while j < unique.len() && !(unique[j] && stacktrace::equal_traces(
                &reports[i].frames,
                &reports[j].frames,
            ))
                invariant
                    i < unique.len(),
                    j <= unique.len(),
                    unique.len() == reports.len(),
                    t == traces(reports@),
                    u == unique@,
                    first_match(t, u, i as int, 0) == first_match(t, u, i as int, j as int),
                decreases unique.len() - j,
            {
                j += 1;
            }
            if j < unique.len() {
                assert(first_match(t, u, i as int, 0) == Some(j as int));
                let mut group: Vec<usize> = match groups.remove(&j) {
                    Some(group) => group,
                    None => Vec::new(),
                };
                group.push(i);
                groups.insert(j, group);
                assert(group@ == (seq![j] + followers(t, u, j as int, i as int)).push(i));
                assert(group@ == seq![j] + followers(t, u, j as int, i + 1));
            }
        }
        assert forall|r: usize| #[trigger] groups@.contains_key(r) implies groups@[r]@ == seq![r]
            + followers(t, u, r as int, i + 1) by {
            assert(before.contains_key(r));
        }
        i += 1;
    }
    assert(members(groups@) =~= grouping(t, u)) by {
        assert forall|r: usize| members(groups@).contains_key(r) implies members(groups@)[r]
            == grouping(t, u)[r] by {
            assert(groups@.contains_key(r));
        }
    }
    groups
}

/// Some group holds `i`.
pub open spec fn is_grouped(groups: Map<usize, Seq<usize>>, i: usize) -> bool {
    exists|r: usize| groups.contains_key(r) && #[trigger] groups[r].contains(i)
}

/// The groups hold each of the first `n` indices in one place only, and each group is led by its
/// representative, the least of its members.
pub open spec fn is_partition(groups: Map<usize, Seq<usize>>, n: nat) -> bool {
    &&& forall|r: usize| #[trigger]
        groups.contains_key(r) ==> groups[r].len() > 0 && groups[r][0] == r
    &&& forall|r: usize, k: int|
        groups.contains_key(r) && 0 <= k < groups[r].len() ==> #[trigger] groups[r][k] < n
    &&& forall|r: usize, k: int, l: int|
        groups.contains_key(r) && 0 <= k < l < groups[r].len() ==> #[trigger] groups[r][k]
            < #[trigger] groups[r][l]
    &&& forall|r: usize, s: usize, i: usize|
        groups.contains_key(r) && groups.contains_key(s) && #[trigger] groups[r].contains(i)
            && #[trigger] groups[s].contains(i) ==> r == s
    &&& forall|i: usize| i < n ==> #[trigger] is_grouped(groups, i)
}

/// The reports, by index, that have the same stack trace: a map from the representative of each
/// group to its members. The first report of each kind leads a group.
pub fn group_by_stacktrace(reports: &Vec<ParsedReport>) -> (groups: HashMap<usize, Vec<usize>>)
    ensures
        members(groups@) == grouping(traces(reports@), marks(traces(reports@))),
        members(groups@) == groups_of(reports@),
        is_partition(members(groups@), reports@.len()),
{
    assert(traces(reports@).len() == reports.len());
    let unique = if places_tell(reports) {
        let unique = dedup_stacktraces(reports);
        proof {
            law_new_traces_are_the_first_of_their_kind(traces(reports@), unique@);
        }
        unique
    } else {
        first_marks(reports)
    };
    proof {
        law_marks_are_determined(traces(reports@), unique@);
        law_grouping_is_a_partition(traces(reports@), unique@);
    }
    group_by_marks(reports, &unique)
}

proof fn lemma_first_match(traces: Seq<Seq<FrameView>>, unique: Seq<bool>, i: int, from: int)
    requires
        0 <= from <= traces.len(),
    ensures
        match first_match(traces, unique, i, from) {
            Some(j) => from <= j < traces.len() && unique[j] && stacktrace::same_trace(
                traces[i],
                traces[j],
            ) && forall|k: int|
                from <= k < j ==> !(#[trigger] unique[k] && stacktrace::same_trace(
                    traces[i],
                    traces[k],
                )),
            None => forall|k: int|
                from <= k < traces.len() ==> !(#[trigger] unique[k] && stacktrace::same_trace(
                    traces[i],
                    traces[k],
                )),
        },
    decreases traces.len() - from,
{
    if from < traces.len() && !(unique[from] && stacktrace::same_trace(traces[i], traces[from])) {
        lemma_first_match(traces, unique, i, from + 1);
    }
}

proof fn lemma_followers(traces: Seq<Seq<FrameView>>, unique: Seq<bool>, r: int, n: int)
    requires
        0 <= n <= traces.len() <= usize::MAX,
    ensures
        forall|k: int|
            0 <= k < followers(traces, unique, r, n).len() ==> ({
                let i = #[trigger] followers(traces, unique, r, n)[k] as int;
                i < n && !unique[i] && first_match(traces, unique, i, 0) == Some(r)
            }),
        forall|k: int, l: int|
            0 <= k < l < followers(traces, unique, r, n).len() ==> #[trigger] followers(
                traces,
                unique,
                r,
                n,
            )[k] < #[trigger] followers(traces, unique, r, n)[l],
        forall|i: usize|
            i < n && !unique[i as int] && first_match(traces, unique, i as int, 0) == Some(r)
                ==> #[trigger] followers(traces, unique, r, n).contains(i),
    decreases n,
{
    if n > 0 {
        lemma_followers(traces, unique, r, n - 1);
        let before = followers(traces, unique, r, n - 1);
        let after = followers(traces, unique, r, n);
        assert forall|i: usize|
            i < n && !unique[i as int] && first_match(traces, unique, i as int, 0) == Some(
                r,
            ) implies #[trigger] after.contains(i) by {
            if i == n - 1 {
                assert(after[before.len() as int] == i);
            } else {
                let k = choose|k: int| 0 <= k < before.len() && before[k] == i;
                assert(before.contains(i));
                assert(after[k] == i);
            }
        }
    }
}

/// No crash is lost: whatever the marks, each report stands in one group and in one place of it,
/// and the representative of a group is its first report.
pub proof fn law_grouping_is_a_partition(traces: Seq<Seq<FrameView>>, unique: Seq<bool>)
    requires
        traces.len() <= usize::MAX,
        is_dedup(traces, unique),
    ensures
        is_partition(grouping(traces, unique), traces.len()),
{
    let n = traces.len() as int;
    let groups = grouping(traces, unique);
    assert forall|r: usize| groups.contains_key(r) implies {
        let f = followers(traces, unique, r as int, n);
        &&& groups[r] == seq![r] + f
        &&& forall|k: int|
            0 <= k < f.len() ==> {
                &&& r < #[trigger] f[k] < n
                &&& !unique[f[k] as int]
                &&& first_match(traces, unique, f[k] as int, 0) == Some(r as int)
            }
        &&& forall|k: int, l: int| 0 <= k < l < f.len() ==> #[trigger] f[k] < #[trigger] f[l]
    } by {
        let f = followers(traces, unique, r as int, n);
        lemma_followers(traces, unique, r as int, n);
        assert forall|k: int| 0 <= k < f.len() implies r < #[trigger] f[k] by {
            let i = f[k] as int;
            lemma_first_match(traces, unique, i, 0);
            assert(!unique[i]);
            let j = choose|j: int|
                0 <= j < i && unique[j] && stacktrace::same_trace(traces[i], #[trigger] traces[j]);
            assert(unique[j]);
        }
    }
    assert forall|r: usize, k: int|
        groups.contains_key(r) && 0 <= k < groups[r].len() implies #[trigger] groups[r][k] < n by {
        let f = followers(traces, unique, r as int, n);
        if k > 0 {
            assert(groups[r][k] == f[k - 1]);
        }
    }
    assert forall|r: usize, k: int, l: int|
        groups.contains_key(r) && 0 <= k < l < groups[r].len() implies #[trigger] groups[r][k]
        < #[trigger] groups[r][l] by {
        let f = followers(traces, unique, r as int, n);
        assert(groups[r][l] == f[l - 1]);
        if k > 0 {
            assert(groups[r][k] == f[k - 1]);
        }
    }
    assert forall|r: usize, s: usize, i: usize|
        groups.contains_key(r) && groups.contains_key(s) && #[trigger] groups[r].contains(i)
            && #[trigger] groups[s].contains(i) implies r == s by {
        let k = choose|k: int| 0 <= k < groups[r].len() && groups[r][k] == i;
        let l = choose|l: int| 0 <= l < groups[s].len() && groups[s][l] == i;
        if k > 0 {
            assert(groups[r][k] == followers(traces, unique, r as int, n)[k - 1]);
        }
        if l > 0 {
            assert(groups[s][l] == followers(traces, unique, s as int, n)[l - 1]);
        }
    }
    assert forall|i: usize| i < n implies #[trigger] is_grouped(groups, i) by {
        if unique[i as int] {
            assert(groups.contains_key(i));
            assert(groups[i][0] == i);
            assert(groups[i].contains(i));
        } else {
            lemma_first_match(traces, unique, i as int, 0);
            let j = choose|j: int|
                0 <= j < i && unique[j] && stacktrace::same_trace(
                    traces[i as int],
                    #[trigger] traces[j],
                );
            assert(unique[j]);
            let r = first_match(traces, unique, i as int, 0)->0 as usize;
            assert(groups.contains_key(r));
            lemma_followers(traces, unique, r as int, n);
            let f = followers(traces, unique, r as int, n);
            assert(f.contains(i));
            let k = choose|k: int| 0 <= k < f.len() && f[k] == i;
            assert(groups[r][k + 1] == i);
            assert(groups[r].contains(i));
        }
    }
}

/// The stack trace of each member of a group agrees with that of its representative.
pub proof fn law_members_share_the_stacktrace(
    traces: Seq<Seq<FrameView>>,
    unique: Seq<bool>,
    representative: usize,
    member: usize,
)
    requires
        traces.len() <= usize::MAX,
        is_dedup(traces, unique),
        grouping(traces, unique).contains_key(representative),
        grouping(traces, unique)[representative].contains(member),
    ensures
        member == representative || stacktrace::same_trace(
            traces[member as int],
            traces[representative as int],
        ),
{
    let n = traces.len() as int;
    let group = grouping(traces, unique)[representative];
    let k = choose|k: int| 0 <= k < group.len() && group[k] == member;
    if k > 0 {
        lemma_followers(traces, unique, representative as int, n);
        assert(group[k] == followers(traces, unique, representative as int, n)[k - 1]);
        lemma_first_match(traces, unique, member as int, 0);
    }
}

/// The stack traces of two representatives do not agree.
pub proof fn law_representatives_differ(
    traces: Seq<Seq<FrameView>>,
    unique: Seq<bool>,
    a: usize,
    b: usize,
)
    requires
        is_dedup(traces, unique),
        grouping(traces, unique).contains_key(a),
        grouping(traces, unique).contains_key(b),
        a != b,
    ensures
        !stacktrace::same_trace(traces[a as int], traces[b as int]),
{
    stacktrace::law_same_trace_is_symmetric(traces[a as int], traces[b as int]);
    assert(unique[a as int] && unique[b as int]);
    assert(unique[a as int] != is_follower(traces, unique, a as int));
    assert(unique[b as int] != is_follower(traces, unique, b as int));
    if stacktrace::same_trace(traces[a as int], traces[b as int]) {
        if a < b {
            assert(is_follower(traces, unique, b as int));
        } else {
            assert(is_follower(traces, unique, a as int));
        }
    }
}

/// The groups of reports by their stack traces.
pub open spec fn groups_of(reports: Seq<ParsedReport>) -> Map<usize, Seq<usize>> {
    grouping(traces(reports), marks(traces(reports)))
}

/// The stack traces of two reports in one group have the same length, and at every index their
/// frames agree: in the source position if both have one, else in module and offset if both have
/// them, else in the address.
pub proof fn law_a_group_has_one_stacktrace(
    reports: Seq<ParsedReport>,
    representative: usize,
    member: usize,
)
    requires
        reports.len() <= usize::MAX,
        groups_of(reports).contains_key(representative),
        groups_of(reports)[representative].contains(member),
        member != representative,
    ensures
        ({
            let a = reports[member as int].frames@;
            let b = reports[representative as int].frames@;
            &&& a.len() == b.len()
            &&& forall|i: int|
                #![trigger a[i]]
                0 <= i < a.len() ==> if a[i].debug.file@.len() > 0 && b[i].debug.file@.len() > 0 {
                    a[i].debug.file@ == b[i].debug.file@ && a[i].debug.line == b[i].debug.line
                        && a[i].debug.column == b[i].debug.column
                } else if a[i].module@.len() > 0 && b[i].module@.len() > 0 && a[i].offset != 0
                    && b[i].offset != 0 {
                    a[i].module@ == b[i].module@ && a[i].offset == b[i].offset
                } else {
                    a[i].address == b[i].address
                }
        }),
{
    let t = traces(reports);
    assert(t.len() == reports.len());
    law_marks_are_a_dedup(t);
    law_members_share_the_stacktrace(t, marks(t), representative, member);
    law_grouping_is_a_partition(t, marks(t));
    let group = groups_of(reports)[representative];
    let k = choose|k: int| 0 <= k < group.len() && group[k] == member;
    assert(groups_of(reports)[representative][k] < reports.len());
    assert(groups_of(reports)[representative][0] < reports.len());
    let a = reports[member as int].frames@;
    let b = reports[representative as int].frames@;
    let x = t[member as int];
    let y = t[representative as int];
    stacktrace::law_the_model_of_a_trace_is_complete(a);
    stacktrace::law_the_model_of_a_trace_is_complete(b);
    stacktrace::law_traces_agree_at_every_frame(x, y);
    assert(x == stacktrace::frames_view(a) && y == stacktrace::frames_view(b));
    assert forall|i: int| #![trigger a[i]] 0 <= i < a.len() implies x[i] == a[i]@ && y[i] == b[i]@
        && x[i].same(y[i]) by {}
}

/// A report leads a group if and only if its stack trace agrees with that of no report before it
/// that leads one. Any other follows in one group only: that of the first leading report with which
/// it agrees.
pub proof fn law_a_report_joins_the_first_that_it_agrees_with(
    reports: Seq<ParsedReport>,
    i: usize,
)
    requires
        i < reports.len() <= usize::MAX,
    ensures
        groups_of(reports).contains_key(i) <==> forall|r: usize|
            r < i && #[trigger] groups_of(reports).contains_key(r) ==> !stacktrace::same_trace(
                stacktrace::frames_view(reports[i as int].frames@),
                stacktrace::frames_view(reports[r as int].frames@),
            ),
        forall|r: usize| #[trigger]
            groups_of(reports).contains_key(r) ==> (groups_of(reports)[r].contains(i) <==> i == r
                || !groups_of(reports).contains_key(i) && stacktrace::same_trace(
                stacktrace::frames_view(reports[i as int].frames@),
                stacktrace::frames_view(reports[r as int].frames@),
            ) && forall|s: usize|
                s < r && #[trigger] groups_of(reports).contains_key(s) ==> !stacktrace::same_trace(
                    stacktrace::frames_view(reports[i as int].frames@),
                    stacktrace::frames_view(reports[s as int].frames@),
                )),
{
    let t = traces(reports);
    let u = marks(t);
    let n = t.len() as int;
    let groups = groups_of(reports);
    assert(t.len() == reports.len());
    law_marks_are_a_dedup(t);
    law_grouping_is_a_partition(t, u);
    assert(u[i as int] != is_follower(t, u, i as int));
    assert forall|r: usize| #[trigger] groups.contains_key(r) <==> r < n && u[r as int] by {}
    if is_follower(t, u, i as int) {
        let j = choose|j: int|
            0 <= j < i && u[j] && stacktrace::same_trace(t[i as int], #[trigger] t[j]);
        assert(groups.contains_key(j as usize));
    }
    if exists|r: usize|
        r < i && #[trigger] groups.contains_key(r) && stacktrace::same_trace(
            t[i as int],
            t[r as int],
        ) {
        let r = choose|r: usize|
            r < i && #[trigger] groups.contains_key(r) && stacktrace::same_trace(
                t[i as int],
                t[r as int],
            );
        assert(u[r as int] && stacktrace::same_trace(t[i as int], t[r as int]));
        assert(is_follower(t, u, i as int));
    }
    lemma_first_match(t, u, i as int, 0);
    assert forall|r: usize| #[trigger] groups.contains_key(r) implies (groups[r].contains(i) <==> i
        == r || !groups.contains_key(i) && stacktrace::same_trace(t[i as int], t[r as int])
        && forall|s: usize|
        s < r && #[trigger] groups.contains_key(s) ==> !stacktrace::same_trace(
            t[i as int],
            t[s as int],
        )) by {
        lemma_followers(t, u, r as int, n);
        let f = followers(t, u, r as int, n);
        assert(groups[r] == seq![r] + f);
        if groups[r].contains(i) && i != r {
            let k = choose|k: int| 0 <= k < groups[r].len() && groups[r][k] == i;
            assert(f[k - 1] == i);
            assert forall|s: usize| s < r && #[trigger] groups.contains_key(s) implies
                !stacktrace::same_trace(t[i as int], t[s as int]) by {
                assert(u[s as int]);
            }
        }
        if i == r {
            assert(groups[r][0] == i);
        } else if !groups.contains_key(i) && stacktrace::same_trace(t[i as int], t[r as int])
            && forall|s: usize|
            s < r && #[trigger] groups.contains_key(s) ==> !stacktrace::same_trace(
                t[i as int],
                t[s as int],
            ) {
            let found = first_match(t, u, i as int, 0);
            assert(u[r as int] && stacktrace::same_trace(t[i as int], t[r as int]));
            assert(found is Some);
            if found->0 < r {
                assert(groups.contains_key(found->0 as usize));
            }
            assert(found == Some(r as int));
            assert(f.contains(i));
            let k = choose|k: int| 0 <= k < f.len() && f[k] == i;
            assert(groups[r][k + 1] == i);
        }
    }
}

/// The report that leads a group stands first in it, and the others follow in the order of the
/// reports, each once.
pub proof fn law_groups_are_in_order(reports: Seq<ParsedReport>, representative: usize)
    requires
        reports.len() <= usize::MAX,
        groups_of(reports).contains_key(representative),
    ensures
        groups_of(reports)[representative].len() > 0,
        groups_of(reports)[representative][0] == representative,
        forall|k: int, l: int|
            0 <= k < l < groups_of(reports)[representative].len() ==> #[trigger] groups_of(
                reports,
            )[representative][k] < #[trigger] groups_of(reports)[representative][l],
        forall|k: int|
            0 <= k < groups_of(reports)[representative].len() ==> #[trigger] groups_of(
                reports,
            )[representative][k] < reports.len(),
{
    assert(traces(reports).len() == reports.len());
    law_marks_are_a_dedup(traces(reports));
    law_grouping_is_a_partition(traces(reports), marks(traces(reports)));
}

/// The members of the groups are those in the vectors.
pub proof fn law_the_model_of_groups_is_complete(groups: Map<usize, Vec<usize>>)
    ensures
        members(groups).dom() == groups.dom(),
        forall|r: usize| #[trigger] groups.contains_key(r) ==> members(groups)[r] == groups[r]@,
{
    assert(members(groups).dom() =~= groups.dom());
}

} // verus!

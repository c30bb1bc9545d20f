//! Proved laws of the analysis.
//!
//! Each public proof function states one property of the analysis over its
//! mathematical model and proves it for every input.

use crate::aggregate::{
    agg_from, agg_init, agg_run, agg_step, bucket_keys_unique, bucket_upd,
    lemma_agg_run_bounded, AggV, BucketV,
};
use crate::events::{event_bucket, event_included, event_path, spec_file_key, EventV};
use crate::matcher::name_excluded;
use crate::paths::is_path_prefix;
use crate::rank::{distinct_paths, lemma_sort_entries_ranked, ranked, sort_entries, EntryV};
use crate::{entries_of_buckets, entry_of_bucket, spec_analyze, ResultV};
use vstd::prelude::*;

verus! {

/// The identity key of a file event.
pub open spec fn file_key_of(e: EventV) -> u128 {
    match e {
        EventV::File { key, .. } => key,
        EventV::Dir { .. } => 0,
    }
}

/// The allocated bytes of a file event.
pub open spec fn file_usage_of(e: EventV) -> int {
    match e {
        EventV::File { usage, .. } => usage as int,
        EventV::Dir { .. } => 0,
    }
}

/// Whether an event contributes to the totals, given the identity keys
/// already seen: an included file event whose key is new.
pub open spec fn counts_now(
    root: Seq<Seq<char>>,
    patterns: Seq<Seq<char>>,
    max_depth: Option<usize>,
    seen: Set<u128>,
    e: EventV,
) -> bool {
    &&& event_included(root, patterns, max_depth, e)
    &&& e is File
    &&& !seen.contains(file_key_of(e))
}

/// The subsequence of events that contribute to the totals: included file
/// events, first occurrence per identity key.
pub open spec fn dedup_files(
    root: Seq<Seq<char>>,
    patterns: Seq<Seq<char>>,
    max_depth: Option<usize>,
    seen: Set<u128>,
    events: Seq<EventV>,
) -> Seq<EventV>
    decreases events.len(),
{
    if events.len() == 0 {
        Seq::empty()
    } else if counts_now(root, patterns, max_depth, seen, events[0]) {
        seq![events[0]] + dedup_files(
            root,
            patterns,
            max_depth,
            seen.insert(file_key_of(events[0])),
            events.drop_first(),
        )
    } else {
        dedup_files(root, patterns, max_depth, seen, events.drop_first())
    }
}

/// The summed usage of a sequence of file events.
pub open spec fn usage_sum(events: Seq<EventV>) -> int
    decreases events.len(),
{
    if events.len() == 0 {
        0
    } else {
        file_usage_of(events[0]) + usage_sum(events.drop_first())
    }
}

/// The summed sizes of all buckets.
pub open spec fn buckets_size_sum(gs: Seq<BucketV>) -> int
    decreases gs.len(),
{
    if gs.len() == 0 {
        0
    } else {
        gs[0].size + buckets_size_sum(gs.drop_first())
    }
}

/// Applying a delta raises the bucket size sum by exactly the delta.
proof fn lemma_bucket_upd_size_sum(
    gs: Seq<BucketV>,
    key: Option<Seq<char>>,
    du: int,
    df: int,
    dd: int,
)
    ensures
        buckets_size_sum(bucket_upd(gs, key, du, df, dd)) == buckets_size_sum(gs) + du,
    decreases gs.len(),
{
    let r = bucket_upd(gs, key, du, df, dd);
    if gs.len() == 0 {
        assert(r.len() == 1);
        assert(r[0].size == du);
        assert(r.drop_first() =~= Seq::<BucketV>::empty());
        assert(buckets_size_sum(r) == r[0].size + buckets_size_sum(r.drop_first()));
        assert(buckets_size_sum(r.drop_first()) == 0);
    } else if gs[0].key == key {
        assert(r[0].size == gs[0].size + du);
        assert(r.drop_first() =~= gs.drop_first());
        assert(buckets_size_sum(r) == r[0].size + buckets_size_sum(r.drop_first()));
        assert(buckets_size_sum(gs) == gs[0].size + buckets_size_sum(gs.drop_first()));
    } else {
        lemma_bucket_upd_size_sum(gs.drop_first(), key, du, df, dd);
        assert(r[0] == gs[0]);
        assert(r.drop_first() =~= bucket_upd(gs.drop_first(), key, du, df, dd));
        assert(r.len() > 0);
        assert(buckets_size_sum(r) == r[0].size + buckets_size_sum(r.drop_first()));
        assert(buckets_size_sum(gs) == gs[0].size + buckets_size_sum(gs.drop_first()));
    }
}

/// Folding events onto a state whose bucket sizes sum to its total keeps
/// that equality, and advances the totals by exactly the deduplicated
/// included files.
proof fn lemma_agg_from_dedup(
    st: AggV,
    root: Seq<Seq<char>>,
    patterns: Seq<Seq<char>>,
    max_depth: Option<usize>,
    events: Seq<EventV>,
)
    requires
        buckets_size_sum(st.buckets) == st.total_size,
    ensures
        ({
            let g = agg_from(st, root, patterns, max_depth, events);
            let d = dedup_files(root, patterns, max_depth, st.seen, events);
            &&& g.total_size == st.total_size + usage_sum(d)
            &&& g.total_files == st.total_files + d.len()
            &&& buckets_size_sum(g.buckets) == g.total_size
        }),
    decreases events.len(),
{
    if events.len() > 0 {
        let e = events[0];
        let st2 = agg_step(st, root, patterns, max_depth, e);
        let d = dedup_files(root, patterns, max_depth, st.seen, events);
        if counts_now(root, patterns, max_depth, st.seen, e) {
            match e {
                EventV::File { path, key, usage } => {
                    lemma_bucket_upd_size_sum(
                        st.buckets,
                        event_bucket(root, e),
                        usage as int,
                        1,
                        0,
                    );
                },
                EventV::Dir { path } => {},
            }
            lemma_agg_from_dedup(st2, root, patterns, max_depth, events.drop_first());
            let drest = dedup_files(
                root,
                patterns,
                max_depth,
                st.seen.insert(file_key_of(e)),
                events.drop_first(),
            );
            assert(d == seq![e] + drest);
            assert(d[0] == e);
            assert(d.drop_first() =~= drest);
            assert(usage_sum(d) == file_usage_of(e) + usage_sum(drest));
        } else {
            match e {
                EventV::File { path, key, usage } => {},
                EventV::Dir { path } => {
                    if event_included(root, patterns, max_depth, e) {
                        lemma_bucket_upd_size_sum(st.buckets, event_bucket(root, e), 0, 0, 1);
                    }
                },
            }
            lemma_agg_from_dedup(st2, root, patterns, max_depth, events.drop_first());
        }
    }
}

/// The deduplicated files are included file events with pairwise-distinct
/// identity keys, none of them seen before.
proof fn lemma_dedup_keys_distinct(
    root: Seq<Seq<char>>,
    patterns: Seq<Seq<char>>,
    max_depth: Option<usize>,
    seen: Set<u128>,
    events: Seq<EventV>,
)
    ensures
        ({
            let d = dedup_files(root, patterns, max_depth, seen, events);
            &&& forall|i: int|
                0 <= i < d.len() ==> {
                    &&& #[trigger] d[i] is File
                    &&& event_included(root, patterns, max_depth, d[i])
                    &&& !seen.contains(file_key_of(d[i]))
                }
            &&& forall|i: int, j: int|
                0 <= i < j < d.len() ==> file_key_of(#[trigger] d[i]) != file_key_of(
                    #[trigger] d[j],
                )
        }),
    decreases events.len(),
{
    if events.len() > 0 {
        let e = events[0];
        let d = dedup_files(root, patterns, max_depth, seen, events);
        if counts_now(root, patterns, max_depth, seen, e) {
            let seen2 = seen.insert(file_key_of(e));
            lemma_dedup_keys_distinct(root, patterns, max_depth, seen2, events.drop_first());
            let drest = dedup_files(root, patterns, max_depth, seen2, events.drop_first());
            assert(d == seq![e] + drest);
            assert(d[0] == e);
            assert forall|i: int| 0 <= i < d.len() implies {
                &&& #[trigger] d[i] is File
                &&& event_included(root, patterns, max_depth, d[i])
                &&& !seen.contains(file_key_of(d[i]))
            } by {
                if i > 0 {
                    assert(d[i] == drest[i - 1]);
                    assert(!seen2.contains(file_key_of(drest[i - 1])));
                }
            }
            assert forall|i: int, j: int| 0 <= i < j < d.len() implies file_key_of(
                #[trigger] d[i],
            ) != file_key_of(#[trigger] d[j]) by {
                if i == 0 {
                    assert(d[j] == drest[j - 1]);
                    assert(!seen2.contains(file_key_of(drest[j - 1])));
                } else {
                    assert(d[i] == drest[i - 1] && d[j] == drest[j - 1]);
                }
            }
        } else {
            lemma_dedup_keys_distinct(root, patterns, max_depth, seen, events.drop_first());
        }
    }
}

/// Law: the grand total size is the disk usage summed over the distinct
/// physical files among the included file events — exactly one contribution
/// per hard-link group — the file total is their number, and the same total
/// is the sum of all bucket sizes, truncation notwithstanding.
pub proof fn lemma_total_counts_each_file_once(
    root: Seq<Seq<char>>,
    patterns: Seq<Seq<char>>,
    max_depth: Option<usize>,
    events: Seq<EventV>,
)
    ensures
        ({
            let g = agg_run(root, patterns, max_depth, events);
            let d = dedup_files(root, patterns, max_depth, Set::empty(), events);
            &&& g.total_size == usage_sum(d)
            &&& g.total_files == d.len()
            &&& buckets_size_sum(g.buckets) == g.total_size
            &&& forall|i: int|
                0 <= i < d.len() ==> #[trigger] d[i] is File && event_included(
                    root,
                    patterns,
                    max_depth,
                    d[i],
                )
            &&& forall|i: int, j: int|
                0 <= i < j < d.len() ==> file_key_of(#[trigger] d[i]) != file_key_of(
                    #[trigger] d[j],
                )
        }),
{
    assert(buckets_size_sum(agg_init().buckets) == 0);
    lemma_agg_from_dedup(agg_init(), root, patterns, max_depth, events);
    lemma_dedup_keys_distinct(root, patterns, max_depth, Set::empty(), events);
}

/// Distinct bucket keys give distinct reported paths.
proof fn lemma_entry_paths_distinct(root: Seq<Seq<char>>, gs: Seq<BucketV>)
    requires
        bucket_keys_unique(gs),
    ensures
        distinct_paths(entries_of_buckets(root, gs)),
{
    let es = entries_of_buckets(root, gs);
    assert forall|i: int, j: int| 0 <= i < j < es.len() implies (#[trigger] es[i]).path != (
    #[trigger] es[j]).path by {
        assert(es[i] == entry_of_bucket(root, gs[i]));
        assert(es[j] == entry_of_bucket(root, gs[j]));
        assert(gs[i].key != gs[j].key);
        match (gs[i].key, gs[j].key) {
            (Option::None, Option::None) => {},
            (Option::None, Option::Some(c)) => {
                assert(es[i].path.len() != es[j].path.len());
            },
            (Option::Some(c), Option::None) => {
                assert(es[i].path.len() != es[j].path.len());
            },
            (Option::Some(c1), Option::Some(c2)) => {
                assert(es[i].path[root.len() as int] == c1);
                assert(es[j].path[root.len() as int] == c2);
            },
        }
    }
}

/// Law: the ranked list is strictly ordered — descending by size, with ties
/// broken by the path order — holds only entries of actual buckets, and is
/// never longer than the requested count or the number of buckets.
pub proof fn lemma_top_list_ranked(
    root: Seq<Seq<char>>,
    patterns: Seq<Seq<char>>,
    max_depth: Option<usize>,
    events: Seq<EventV>,
    top_n: int,
)
    requires
        0 <= top_n,
    ensures
        ({
            let r = spec_analyze(root, patterns, max_depth, events, top_n);
            let g = agg_run(root, patterns, max_depth, events);
            &&& r.top.len() <= top_n
            &&& r.top.len() <= g.buckets.len()
            &&& ranked(r.top)
            &&& forall|x: EntryV| #[trigger]
                r.top.contains(x) ==> entries_of_buckets(root, g.buckets).contains(x)
        }),
{
    let g = agg_run(root, patterns, max_depth, events);
    let es = entries_of_buckets(root, g.buckets);
    let sorted = sort_entries(es);
    let r = spec_analyze(root, patterns, max_depth, events, top_n);
    lemma_agg_run_bounded(root, patterns, max_depth, events);
    lemma_entry_paths_distinct(root, g.buckets);
    lemma_sort_entries_ranked(es);
    if top_n < sorted.len() {
        assert(r.top =~= sorted.subrange(0, top_n));
    } else {
        assert(r.top == sorted);
    }
    assert forall|i: int, j: int| 0 <= i < j < r.top.len() implies crate::rank::entry_before(
        #[trigger] r.top[i],
        #[trigger] r.top[j],
    ) by {
        assert(r.top[i] == sorted[i] && r.top[j] == sorted[j]);
    }
    assert forall|x: EntryV| #[trigger] r.top.contains(x) implies es.contains(x) by {
        let k = choose|k: int| 0 <= k < r.top.len() && r.top[k] == x;
        assert(sorted[k] == x);
        assert(sorted.contains(x));
    }
}

/// Whether an event lies in the subtree of the immediate child `name` of
/// the root (the child itself included).
pub open spec fn in_subtree(root: Seq<Seq<char>>, name: Seq<char>, e: EventV) -> bool {
    let p = event_path(e);
    &&& is_path_prefix(root, p)
    &&& p.len() > root.len()
    &&& p[root.len() as int] == name
}

/// The events with the subtree of `name` removed.
pub open spec fn drop_subtree(
    root: Seq<Seq<char>>,
    name: Seq<char>,
    events: Seq<EventV>,
) -> Seq<EventV>
    decreases events.len(),
{
    if events.len() == 0 {
        Seq::empty()
    } else if in_subtree(root, name, events[0]) {
        drop_subtree(root, name, events.drop_first())
    } else {
        seq![events[0]] + drop_subtree(root, name, events.drop_first())
    }
}

proof fn lemma_exclusion_from(
    st: AggV,
    root: Seq<Seq<char>>,
    patterns: Seq<Seq<char>>,
    patterns2: Seq<Seq<char>>,
    max_depth: Option<usize>,
    events: Seq<EventV>,
    name: Seq<char>,
)
    requires
        forall|c: Seq<char>| #[trigger]
            name_excluded(patterns2, c) == (name_excluded(patterns, c) || c == name),
        forall|k: int, i: int|
            0 <= k < events.len() && root.len() <= i < event_path(events[k]).len() && #[trigger]
            event_path(#[trigger] events[k])[i] == name ==> i == root.len(),
    ensures
        agg_from(st, root, patterns2, max_depth, events) == agg_from(
            st,
            root,
            patterns,
            max_depth,
            drop_subtree(root, name, events),
        ),
    decreases events.len(),
{
    if events.len() > 0 {
        let e = events[0];
        let p = event_path(e);
        let rest = events.drop_first();
        assert forall|k: int, i: int|
            0 <= k < rest.len() && root.len() <= i < event_path(rest[k]).len() && #[trigger]
            event_path(#[trigger] rest[k])[i] == name implies i == root.len() by {
            assert(rest[k] == events[k + 1]);
            assert(event_path(events[k + 1])[i] == name);
        }
        if in_subtree(root, name, e) {
            // The extra pattern excludes the child's own name component.
            assert(name_excluded(patterns2, p[root.len() as int]));
            assert(!event_included(root, patterns2, max_depth, e));
            assert(agg_step(st, root, patterns2, max_depth, e) == st);
            lemma_exclusion_from(st, root, patterns, patterns2, max_depth, rest, name);
        } else {
            if is_path_prefix(root, p) && p.len() > root.len() {
                // under the root but not in the subtree: no component of
                // this event below the root is the excluded name
                assert(p[root.len() as int] != name);
                assert forall|i: int| root.len() <= i < p.len() implies name_excluded(
                    patterns2,
                    #[trigger] p[i],
                ) == name_excluded(patterns, p[i]) by {
                    if p[i] == name {
                        assert(event_path(events[0])[i] == name);
                        assert(i == root.len());
                        assert(false);
                    }
                }
            } else {
                assert(!event_included(root, patterns2, max_depth, e));
                assert(!event_included(root, patterns, max_depth, e));
            }
            assert(event_included(root, patterns2, max_depth, e) == event_included(
                root,
                patterns,
                max_depth,
                e,
            ));
            assert(agg_step(st, root, patterns2, max_depth, e) == agg_step(
                st,
                root,
                patterns,
                max_depth,
                e,
            ));
            let st2 = agg_step(st, root, patterns, max_depth, e);
            lemma_exclusion_from(st2, root, patterns, patterns2, max_depth, rest, name);
            let dropped = drop_subtree(root, name, events);
            assert(dropped == seq![e] + drop_subtree(root, name, rest));
            assert(dropped[0] == e);
            assert(dropped.drop_first() =~= drop_subtree(root, name, rest));
        }
    } else {
        assert(drop_subtree(root, name, events) =~= Seq::<EventV>::empty());
    }
}

/// Law: excluding the name of an immediate child of the root removes that
/// child and everything beneath it from all counts, and nothing else: the
/// run equals a run without the extra pattern on the events with the
/// subtree removed, so every sibling bucket and the remaining totals are
/// untouched. The name must occur only as an immediate child (the premise
/// on `events`); the pattern list `patterns2` excludes exactly what
/// `patterns` does plus exactly that name.
pub proof fn lemma_exclusion_removes_subtree(
    root: Seq<Seq<char>>,
    patterns: Seq<Seq<char>>,
    patterns2: Seq<Seq<char>>,
    max_depth: Option<usize>,
    events: Seq<EventV>,
    name: Seq<char>,
    top_n: int,
)
    requires
        forall|c: Seq<char>| #[trigger]
            name_excluded(patterns2, c) == (name_excluded(patterns, c) || c == name),
        forall|k: int, i: int|
            0 <= k < events.len() && root.len() <= i < event_path(events[k]).len() && #[trigger]
            event_path(#[trigger] events[k])[i] == name ==> i == root.len(),
    ensures
        agg_run(root, patterns2, max_depth, events) == agg_run(
            root,
            patterns,
            max_depth,
            drop_subtree(root, name, events),
        ),
        spec_analyze(root, patterns2, max_depth, events, top_n) == spec_analyze(
            root,
            patterns,
            max_depth,
            drop_subtree(root, name, events),
            top_n,
        ),
{
    lemma_exclusion_from(agg_init(), root, patterns, patterns2, max_depth, events, name);
}

/// Law: with maximum depth 0, only files directly under the root count: no
/// directory is counted, the root's own bucket is the only one that can
/// exist, and the ranked list holds at most one entry.
pub proof fn lemma_depth_zero_only_root_files(
    root: Seq<Seq<char>>,
    patterns: Seq<Seq<char>>,
    events: Seq<EventV>,
    top_n: int,
)
    requires
        0 <= top_n,
    ensures
        ({
            let g = agg_run(root, patterns, Option::Some(0usize), events);
            &&& g.total_dirs == 0
            &&& forall|i: int| 0 <= i < g.buckets.len() ==> (#[trigger] g.buckets[i]).key is None
            &&& g.buckets.len() <= 1
        }),
        spec_analyze(root, patterns, Option::Some(0usize), events, top_n).top.len() <= 1,
{
    lemma_depth_zero_from(agg_init(), root, patterns, events);
    let g = agg_run(root, patterns, Option::Some(0usize), events);
    let es = entries_of_buckets(root, g.buckets);
    lemma_agg_run_bounded(root, patterns, Option::Some(0usize), events);
    lemma_entry_paths_distinct(root, g.buckets);
    lemma_sort_entries_ranked(es);
    let sorted = sort_entries(es);
    let r = spec_analyze(root, patterns, Option::Some(0usize), events, top_n);
    if top_n < sorted.len() {
        assert(r.top.len() <= sorted.len());
    }
}

proof fn lemma_depth_zero_from(
    st: AggV,
    root: Seq<Seq<char>>,
    patterns: Seq<Seq<char>>,
    events: Seq<EventV>,
)
    requires
        st.total_dirs == 0,
        forall|i: int| 0 <= i < st.buckets.len() ==> (#[trigger] st.buckets[i]).key is None,
        st.buckets.len() <= 1,
    ensures
        ({
            let g = agg_from(st, root, patterns, Option::Some(0usize), events);
            &&& g.total_dirs == 0
            &&& forall|i: int| 0 <= i < g.buckets.len() ==> (#[trigger] g.buckets[i]).key is None
            &&& g.buckets.len() <= 1
        }),
    decreases events.len(),
{
    if events.len() > 0 {
        let e = events[0];
        let st2 = agg_step(st, root, patterns, Option::Some(0usize), e);
        if event_included(root, patterns, Option::Some(0usize), e) {
            match e {
                EventV::File { path, key, usage } => {
                    assert(path.len() - root.len() <= 1);
                    assert(event_bucket(root, e) is None);
                    if !st.seen.contains(key) {
                        let bs = bucket_upd(
                            st.buckets,
                            event_bucket(root, e),
                            usage as int,
                            1,
                            0,
                        );
                        if st.buckets.len() == 0 {
                            assert(bs.len() == 1);
                            assert(bs[0].key is None);
                        } else {
                            assert(st.buckets[0].key is None);
                            assert(bs =~= seq![
                                BucketV {
                                    key: event_bucket(root, e),
                                    size: st.buckets[0].size + usage,
                                    files: st.buckets[0].files + 1,
                                    dirs: st.buckets[0].dirs + 0,
                                },
                            ] + st.buckets.drop_first());
                            assert(bs.len() == st.buckets.len());
                        }
                    }
                },
                EventV::Dir { path } => {
                    // a directory event needs depth at most 0 below the root,
                    // which is impossible for an event strictly below it
                    assert(path.len() > root.len());
                    assert(false);
                },
            }
        }
        lemma_depth_zero_from(st2, root, patterns, events.drop_first());
    }
}

/// Law: the analysis is deterministic. Its result is a function of the
/// root, the configuration and the walked events alone: two results that
/// both satisfy the analysis relation for the same inputs are equal,
/// whatever order the buckets and keys were discovered in within one walk.
pub proof fn lemma_analysis_deterministic(
    root: Seq<Seq<char>>,
    patterns: Seq<Seq<char>>,
    max_depth: Option<usize>,
    events: Seq<EventV>,
    top_n: int,
    r1: ResultV,
    r2: ResultV,
)
    requires
        r1 == spec_analyze(root, patterns, max_depth, events, top_n),
        r2 == spec_analyze(root, patterns, max_depth, events, top_n),
    ensures
        r1 == r2,
{
}

/// Two aggregation states that agree on everything the grand totals depend
/// on: the seen identity keys and the three totals. The buckets may differ.
pub open spec fn same_totals(a: AggV, b: AggV) -> bool {
    &&& a.seen == b.seen
    &&& a.total_files == b.total_files
    &&& a.total_dirs == b.total_dirs
    &&& a.total_size == b.total_size
}

/// Two observations of the same physical file report the same usage: if
/// both events are included files with one identity key, their usage is
/// equal. On a filesystem this holds because both readings come from the
/// same object's metadata.
pub open spec fn consistent_pair(
    root: Seq<Seq<char>>,
    patterns: Seq<Seq<char>>,
    max_depth: Option<usize>,
    a: EventV,
    b: EventV,
) -> bool {
    (a is File && b is File && event_included(root, patterns, max_depth, a) && event_included(
        root,
        patterns,
        max_depth,
        b,
    ) && file_key_of(a) == file_key_of(b)) ==> file_usage_of(a) == file_usage_of(b)
}

/// The identity key determines the usage across a whole event sequence.
pub open spec fn usage_keyed(
    root: Seq<Seq<char>>,
    patterns: Seq<Seq<char>>,
    max_depth: Option<usize>,
    s: Seq<EventV>,
) -> bool {
    forall|i: int, j: int|
        0 <= i < s.len() && 0 <= j < s.len() ==> consistent_pair(
            root,
            patterns,
            max_depth,
            #[trigger] s[i],
            #[trigger] s[j],
        )
}

/// One step preserves agreement of the totals.
proof fn lemma_step_totals_congruent(
    a: AggV,
    b: AggV,
    root: Seq<Seq<char>>,
    patterns: Seq<Seq<char>>,
    max_depth: Option<usize>,
    e: EventV,
)
    requires
        same_totals(a, b),
    ensures
        same_totals(
            agg_step(a, root, patterns, max_depth, e),
            agg_step(b, root, patterns, max_depth, e),
        ),
{
}

/// Folding one and the same sequence preserves agreement of the totals.
proof fn lemma_from_totals_congruent(
    a: AggV,
    b: AggV,
    root: Seq<Seq<char>>,
    patterns: Seq<Seq<char>>,
    max_depth: Option<usize>,
    s: Seq<EventV>,
)
    requires
        same_totals(a, b),
    ensures
        same_totals(
            agg_from(a, root, patterns, max_depth, s),
            agg_from(b, root, patterns, max_depth, s),
        ),
    decreases s.len(),
{
    if s.len() > 0 {
        lemma_step_totals_congruent(a, b, root, patterns, max_depth, s[0]);
        lemma_from_totals_congruent(
            agg_step(a, root, patterns, max_depth, s[0]),
            agg_step(b, root, patterns, max_depth, s[0]),
            root,
            patterns,
            max_depth,
            s.drop_first(),
        );
    }
}

/// Two consistent events can be processed in either order without changing
/// the totals.
proof fn lemma_step_swap(
    st: AggV,
    root: Seq<Seq<char>>,
    patterns: Seq<Seq<char>>,
    max_depth: Option<usize>,
    a: EventV,
    b: EventV,
)
    requires
        consistent_pair(root, patterns, max_depth, a, b),
    ensures
        same_totals(
            agg_step(agg_step(st, root, patterns, max_depth, a), root, patterns, max_depth, b),
            agg_step(agg_step(st, root, patterns, max_depth, b), root, patterns, max_depth, a),
        ),
{
    match (a, b) {
        (EventV::File { key: ka, .. }, EventV::File { key: kb, .. }) => {
            assert(st.seen.insert(ka).insert(kb) =~= st.seen.insert(kb).insert(ka));
        },
        _ => {},
    }
}

/// Processing the event at position `i` first, then the rest, yields the
/// same totals as processing the sequence in order.
proof fn lemma_pull_front(
    st: AggV,
    root: Seq<Seq<char>>,
    patterns: Seq<Seq<char>>,
    max_depth: Option<usize>,
    s: Seq<EventV>,
    i: int,
)
    requires
        0 <= i < s.len(),
        usage_keyed(root, patterns, max_depth, s),
    ensures
        same_totals(
            agg_from(st, root, patterns, max_depth, s),
            agg_from(
                agg_step(st, root, patterns, max_depth, s[i]),
                root,
                patterns,
                max_depth,
                s.remove(i),
            ),
        ),
    decreases i,
{
    if i == 0 {
        assert(s.remove(0) =~= s.drop_first());
    } else {
        let st0 = agg_step(st, root, patterns, max_depth, s[0]);
        let t = s.drop_first();
        assert forall|k: int, l: int|
            0 <= k < t.len() && 0 <= l < t.len() implies consistent_pair(
            root,
            patterns,
            max_depth,
            #[trigger] t[k],
            #[trigger] t[l],
        ) by {
            assert(t[k] == s[k + 1] && t[l] == s[l + 1]);
        }
        lemma_pull_front(st0, root, patterns, max_depth, t, i - 1);
        assert(t[i - 1] == s[i]);
        lemma_step_swap(st, root, patterns, max_depth, s[0], s[i]);
        lemma_from_totals_congruent(
            agg_step(st0, root, patterns, max_depth, s[i]),
            agg_step(
                agg_step(st, root, patterns, max_depth, s[i]),
                root,
                patterns,
                max_depth,
                s[0],
            ),
            root,
            patterns,
            max_depth,
            t.remove(i - 1),
        );
        assert(s.remove(i)[0] == s[0]);
        assert(s.remove(i).drop_first() =~= t.remove(i - 1));
    }
}

/// Folding two rearrangements of one event multiset yields the same totals.
proof fn lemma_perm_totals(
    st: AggV,
    root: Seq<Seq<char>>,
    patterns: Seq<Seq<char>>,
    max_depth: Option<usize>,
    s1: Seq<EventV>,
    s2: Seq<EventV>,
)
    requires
        s1.to_multiset() == s2.to_multiset(),
        usage_keyed(root, patterns, max_depth, s1),
    ensures
        same_totals(
            agg_from(st, root, patterns, max_depth, s1),
            agg_from(st, root, patterns, max_depth, s2),
        ),
    decreases s1.len(),
{
    s1.to_multiset_ensures();
    s2.to_multiset_ensures();
    if s1.len() == 0 {
        assert(s2.len() == 0);
    } else {
        let e = s1[0];
        assert(s1.contains(e));
        assert(s2.to_multiset().count(e) > 0);
        assert(s2.contains(e));
        let i = choose|i: int| 0 <= i < s2.len() && s2[i] == e;
        assert forall|k: int, l: int|
            0 <= k < s2.len() && 0 <= l < s2.len() implies consistent_pair(
            root,
            patterns,
            max_depth,
            #[trigger] s2[k],
            #[trigger] s2[l],
        ) by {
            assert(s2.contains(s2[k]) && s2.contains(s2[l]));
            assert(s1.to_multiset().count(s2[k]) > 0);
            assert(s1.to_multiset().count(s2[l]) > 0);
            assert(s1.contains(s2[k]) && s1.contains(s2[l]));
            let k1 = choose|k1: int| 0 <= k1 < s1.len() && s1[k1] == s2[k];
            let l1 = choose|l1: int| 0 <= l1 < s1.len() && s1[l1] == s2[l];
            assert(consistent_pair(root, patterns, max_depth, s1[k1], s1[l1]));
        }
        lemma_pull_front(st, root, patterns, max_depth, s2, i);
        assert forall|k: int, l: int|
            0 <= k < s1.drop_first().len() && 0 <= l < s1.drop_first().len() implies
            consistent_pair(
            root,
            patterns,
            max_depth,
            #[trigger] s1.drop_first()[k],
            #[trigger] s1.drop_first()[l],
        ) by {
            assert(s1.drop_first()[k] == s1[k + 1] && s1.drop_first()[l] == s1[l + 1]);
        }
        assert(s1.drop_first() =~= s1.remove(0));
        assert(s1.remove(0).to_multiset() =~= s1.to_multiset().remove(e));
        assert(s2.remove(i).to_multiset() =~= s2.to_multiset().remove(e));
        lemma_perm_totals(
            agg_step(st, root, patterns, max_depth, e),
            root,
            patterns,
            max_depth,
            s1.drop_first(),
            s2.remove(i),
        );
    }
}

/// Law: the grand totals do not depend on the order in which the walker
/// delivered the events. Provided the identity key determines a file's
/// usage — true when every observation of one physical file reads the same
/// metadata — any rearrangement of the events yields the same total size,
/// file count and directory count. Which bucket a hard-linked file is
/// attributed to may still follow the traversal order; only the totals are
/// order-free.
pub proof fn lemma_totals_independent_of_order(
    root: Seq<Seq<char>>,
    patterns: Seq<Seq<char>>,
    max_depth: Option<usize>,
    events1: Seq<EventV>,
    events2: Seq<EventV>,
)
    requires
        events1.to_multiset() == events2.to_multiset(),
        usage_keyed(root, patterns, max_depth, events1),
    ensures
        agg_run(root, patterns, max_depth, events1).total_size == agg_run(
            root,
            patterns,
            max_depth,
            events2,
        ).total_size,
        agg_run(root, patterns, max_depth, events1).total_files == agg_run(
            root,
            patterns,
            max_depth,
            events2,
        ).total_files,
        agg_run(root, patterns, max_depth, events1).total_dirs == agg_run(
            root,
            patterns,
            max_depth,
            events2,
        ).total_dirs,
{
    lemma_perm_totals(agg_init(), root, patterns, max_depth, events1, events2);
}

/// Law: the packed identity key is faithful: two observations carry the
/// same key exactly when they name the same device and inode pair, so
/// hard-link deduplication neither merges distinct files nor splits one.
pub proof fn lemma_identity_key_injective(d1: u64, i1: u64, d2: u64, i2: u64)
    ensures
        spec_file_key(d1, i1) == spec_file_key(d2, i2) <==> (d1 == d2 && i1 == i2),
{
    assert((d1 as int) * 0x10000000000000000 + (i1 as int) == (d2 as int) * 0x10000000000000000
        + (i2 as int) ==> d1 == d2 && i1 == i2) by (nonlinear_arith)
        requires
            i1 < 0x10000000000000000 && i2 < 0x10000000000000000,
    ;
}

} // verus!



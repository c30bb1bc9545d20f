//! The aggregation engine: folding walker events into per-bucket statistics.
//!
//! Every included file event is attributed to exactly one bucket, and a
//! physical file reached through several hard links is counted only on the
//! first path encountered: the identity keys already seen form a set, and a
//! key insert that reports the key as present contributes nothing.
//!
//! Byte totals saturate at the largest representable value; the ghost model
//! keeps the exact unbounded sums, and the stored counters equal those sums
//! clamped.

use crate::events::{
    check_included, event_bucket, event_included, events_view, file_key, EventV, WalkEvent,
};
use crate::matcher::pattern_sources;
use crate::paths::FsPath;
use std::collections::HashSet;
use vstd::prelude::*;

verus! {

broadcast use vstd::std_specs::hash::group_hash_axioms;

/// The exact (unbounded) statistics of one bucket.
pub ghost struct BucketV {
    pub key: Option<Seq<char>>,
    pub size: int,
    pub files: int,
    pub dirs: int,
}

/// The exact state of an aggregation run.
pub ghost struct AggV {
    pub buckets: Seq<BucketV>,
    pub seen: Set<u128>,
    pub total_files: int,
    pub total_dirs: int,
    pub total_size: int,
}

pub open spec fn agg_init() -> AggV {
    AggV {
        buckets: Seq::empty(),
        seen: Set::empty(),
        total_files: 0,
        total_dirs: 0,
        total_size: 0,
    }
}

/// Add a delta to the bucket with the given key, creating the bucket at the
/// end when no bucket has that key yet.
pub open spec fn bucket_upd(
    bs: Seq<BucketV>,
    key: Option<Seq<char>>,
    du: int,
    df: int,
    dd: int,
) -> Seq<BucketV>
    decreases bs.len(),
{
    if bs.len() == 0 {
        seq![BucketV { key, size: du, files: df, dirs: dd }]
    } else if bs[0].key == key {
        seq![
            BucketV {
                key,
                size: bs[0].size + du,
                files: bs[0].files + df,
                dirs: bs[0].dirs + dd,
            },
        ] + bs.drop_first()
    } else {
        seq![bs[0]] + bucket_upd(bs.drop_first(), key, du, df, dd)
    }
}

/// One aggregation step: an event that is filtered out, or a hard link whose
/// identity key was already seen, leaves the state unchanged; otherwise the
/// owning bucket and the grand totals are advanced.
pub open spec fn agg_step(
    st: AggV,
    root: Seq<Seq<char>>,
    patterns: Seq<Seq<char>>,
    max_depth: Option<usize>,
    e: EventV,
) -> AggV {
    if !event_included(root, patterns, max_depth, e) {
        st
    } else {
        match e {
            EventV::File { path, key, usage } => {
                if st.seen.contains(key) {
                    st
                } else {
                    AggV {
                        buckets: bucket_upd(st.buckets, event_bucket(root, e), usage as int, 1, 0),
                        seen: st.seen.insert(key),
                        total_files: st.total_files + 1,
                        total_dirs: st.total_dirs,
                        total_size: st.total_size + usage,
                    }
                }
            },
            EventV::Dir { path } => AggV {
                buckets: bucket_upd(st.buckets, event_bucket(root, e), 0, 0, 1),
                seen: st.seen,
                total_files: st.total_files,
                total_dirs: st.total_dirs + 1,
                total_size: st.total_size,
            },
        }
    }
}

/// Fold the aggregation over a sequence of events, starting from `st`.
pub open spec fn agg_from(
    st: AggV,
    root: Seq<Seq<char>>,
    patterns: Seq<Seq<char>>,
    max_depth: Option<usize>,
    events: Seq<EventV>,
) -> AggV
    decreases events.len(),
{
    if events.len() == 0 {
        st
    } else {
        agg_from(
            agg_step(st, root, patterns, max_depth, events[0]),
            root,
            patterns,
            max_depth,
            events.drop_first(),
        )
    }
}

/// The aggregation of a whole event sequence.
pub open spec fn agg_run(
    root: Seq<Seq<char>>,
    patterns: Seq<Seq<char>>,
    max_depth: Option<usize>,
    events: Seq<EventV>,
) -> AggV {
    agg_from(agg_init(), root, patterns, max_depth, events)
}

/// Accumulated statistics of one bucket, as stored during the walk.
#[derive(Debug, Clone, Copy)]
pub struct DirectoryStats {
    pub size: u64,
    pub file_count: usize,
    pub dir_count: usize,
}

/// One bucket accumulator: its key (`None` for files directly in the root)
/// and its statistics.
pub struct BucketAcc {
    pub key: Option<String>,
    pub stats: DirectoryStats,
}

/// An integer clamped to the largest 64-bit value.
pub open spec fn clamp_u64(x: int) -> int {
    if x > u64::MAX as int {
        u64::MAX as int
    } else {
        x
    }
}

/// The stored bucket represents the exact one: same key, exact counts,
/// clamped byte total.
pub open spec fn bucket_abstracts(b: BucketAcc, g: BucketV) -> bool {
    &&& b.key.deep_view() == g.key
    &&& b.stats.size as int == clamp_u64(g.size)
    &&& b.stats.file_count as int == g.files
    &&& b.stats.dir_count as int == g.dirs
}

pub open spec fn buckets_abstract(bs: Seq<BucketAcc>, gs: Seq<BucketV>) -> bool {
    &&& bs.len() == gs.len()
    &&& forall|i: int| 0 <= i < bs.len() ==> bucket_abstracts(#[trigger] bs[i], gs[i])
}

/// No two buckets share a key.
pub open spec fn bucket_keys_unique(gs: Seq<BucketV>) -> bool {
    forall|i: int, j: int| 0 <= i < j < gs.len() ==> gs[i].key != gs[j].key
}

/// Addition on byte counters, saturating at the largest 64-bit value.
pub fn sat_add_u64(a: u64, b: u64) -> (r: u64)
    ensures
        r as int == clamp_u64(a as int + b as int),
{
    if a <= u64::MAX - b {
        a + b
    } else {
        u64::MAX
    }
}

/// When a bucket with the key exists at position `j` (and none earlier),
/// the update rewrites exactly that position.
proof fn lemma_bucket_upd_at(gs: Seq<BucketV>, j: int, key: Option<Seq<char>>, du: int, df: int, dd: int)
    requires
        0 <= j < gs.len(),
        gs[j].key == key,
        forall|i: int| 0 <= i < j ==> gs[i].key != key,
    ensures
        bucket_upd(gs, key, du, df, dd) == gs.update(
            j,
            BucketV {
                key,
                size: gs[j].size + du,
                files: gs[j].files + df,
                dirs: gs[j].dirs + dd,
            },
        ),
    decreases j,
{
    if j == 0 {
        assert(bucket_upd(gs, key, du, df, dd) =~= gs.update(
            0,
            BucketV { key, size: gs[0].size + du, files: gs[0].files + df, dirs: gs[0].dirs + dd },
        ));
    } else {
        lemma_bucket_upd_at(gs.drop_first(), j - 1, key, du, df, dd);
        assert(bucket_upd(gs, key, du, df, dd) =~= gs.update(
            j,
            BucketV { key, size: gs[j].size + du, files: gs[j].files + df, dirs: gs[j].dirs + dd },
        ));
    }
}

/// When no bucket has the key, the update appends a fresh bucket.
proof fn lemma_bucket_upd_new(gs: Seq<BucketV>, key: Option<Seq<char>>, du: int, df: int, dd: int)
    requires
        forall|i: int| 0 <= i < gs.len() ==> gs[i].key != key,
    ensures
        bucket_upd(gs, key, du, df, dd) == gs.push(
            BucketV { key, size: du, files: df, dirs: dd },
        ),
    decreases gs.len(),
{
    if gs.len() == 0 {
        assert(bucket_upd(gs, key, du, df, dd) =~= gs.push(
            BucketV { key, size: du, files: df, dirs: dd },
        ));
    } else {
        lemma_bucket_upd_new(gs.drop_first(), key, du, df, dd);
        assert(bucket_upd(gs, key, du, df, dd) =~= gs.push(
            BucketV { key, size: du, files: df, dirs: dd },
        ));
    }
}

/// Applying a delta keeps every bucket's statistics nonnegative and within
/// the advanced totals.
proof fn lemma_bucket_upd_bounds(
    gs: Seq<BucketV>,
    key: Option<Seq<char>>,
    du: int,
    df: int,
    dd: int,
    tf: int,
    td: int,
)
    requires
        0 <= du && 0 <= df && 0 <= dd,
        forall|i: int|
            0 <= i < gs.len() ==> {
                &&& 0 <= #[trigger] gs[i].size
                &&& 0 <= gs[i].files <= tf
                &&& 0 <= gs[i].dirs <= td
            },
        0 <= tf && 0 <= td,
    ensures
        forall|i: int|
            0 <= i < bucket_upd(gs, key, du, df, dd).len() ==> {
                &&& 0 <= #[trigger] bucket_upd(gs, key, du, df, dd)[i].size
                &&& 0 <= bucket_upd(gs, key, du, df, dd)[i].files <= tf + df
                &&& 0 <= bucket_upd(gs, key, du, df, dd)[i].dirs <= td + dd
            },
    decreases gs.len(),
{
    if gs.len() == 0 {
    } else if gs[0].key == key {
    } else {
        lemma_bucket_upd_bounds(gs.drop_first(), key, du, df, dd, tf, td);
        assert forall|i: int| 0 <= i < bucket_upd(gs, key, du, df, dd).len() implies {
            &&& 0 <= #[trigger] bucket_upd(gs, key, du, df, dd)[i].size
            &&& 0 <= bucket_upd(gs, key, du, df, dd)[i].files <= tf + df
            &&& 0 <= bucket_upd(gs, key, du, df, dd)[i].dirs <= td + dd
        } by {
            if i > 0 {
                assert(bucket_upd(gs, key, du, df, dd)[i] == bucket_upd(
                    gs.drop_first(),
                    key,
                    du,
                    df,
                    dd,
                )[i - 1]);
            }
        }
    }
}

/// Apply one delta to the stored buckets, mirroring `bucket_upd` on the
/// ghost buckets.
fn bucket_add(
    buckets: &mut Vec<BucketAcc>,
    key: Option<String>,
    du: u64,
    df: usize,
    dd: usize,
    Ghost(gs): Ghost<Seq<BucketV>>,
) -> (gout: Ghost<Seq<BucketV>>)
    requires
        buckets_abstract(old(buckets)@, gs),
        forall|i: int|
            0 <= i < gs.len() ==> {
                &&& 0 <= #[trigger] gs[i].size
                &&& 0 <= gs[i].files && gs[i].files + df <= usize::MAX
                &&& 0 <= gs[i].dirs && gs[i].dirs + dd <= usize::MAX
            },
    ensures
        gout@ == bucket_upd(gs, key.deep_view(), du as int, df as int, dd as int),
        buckets_abstract(final(buckets)@, gout@),
{
    let ghost target = key.deep_view();
    let mut j: usize = 0;
    while j < buckets.len()
        invariant
            j <= buckets.len(),
            buckets@ == old(buckets)@,
            buckets_abstract(buckets@, gs),
            forall|i: int|
                0 <= i < gs.len() ==> {
                    &&& 0 <= #[trigger] gs[i].size
                    &&& 0 <= gs[i].files && gs[i].files + df <= usize::MAX
                    &&& 0 <= gs[i].dirs && gs[i].dirs + dd <= usize::MAX
                },
            target == key.deep_view(),
            forall|i: int| 0 <= i < j ==> #[trigger] gs[i].key != target,
        decreases buckets.len() - j,
    {
        let hit = match (&key, &buckets[j].key) {
            (Option::None, Option::None) => true,
            (Option::Some(a), Option::Some(b)) => a.eq(b),
            _ => false,
        };
        if hit {
            proof {
                lemma_bucket_upd_at(gs, j as int, target, du as int, df as int, dd as int);
            }
            let s = buckets[j].stats;
            let updated = BucketAcc {
                key,
                stats: DirectoryStats {
                    size: sat_add_u64(s.size, du),
                    file_count: s.file_count + df,
                    dir_count: s.dir_count + dd,
                },
            };
            buckets[j] = updated;
            let ghost gnew = gs.update(
                j as int,
                BucketV {
                    key: target,
                    size: gs[j as int].size + du,
                    files: gs[j as int].files + df,
                    dirs: gs[j as int].dirs + dd,
                },
            );
            proof {
                assert forall|i: int| 0 <= i < buckets@.len() implies bucket_abstracts(
                    #[trigger] buckets@[i],
                    gnew[i],
                ) by {
                    if i != j as int {
                        assert(bucket_abstracts(buckets@[i], gs[i]));
                    }
                }
            }
            return Ghost(gnew);
        }
        j = j + 1;
    }
    proof {
        lemma_bucket_upd_new(gs, target, du as int, df as int, dd as int);
    }
    let fresh = BucketAcc {
        key,
        stats: DirectoryStats { size: du, file_count: df, dir_count: dd },
    };
    buckets.push(fresh);
    let ghost gnew = gs.push(
        BucketV { key: target, size: du as int, files: df as int, dirs: dd as int },
    );
    proof {
        assert forall|i: int| 0 <= i < buckets@.len() implies bucket_abstracts(
            #[trigger] buckets@[i],
            gnew[i],
        ) by {
            if i < gs.len() {
                assert(bucket_abstracts(buckets@[i], gs[i]));
            }
        }
    }
    Ghost(gnew)
}

/// The completed accumulators and totals of one aggregation run.
pub struct Aggregation {
    pub buckets: Vec<BucketAcc>,
    pub total_files: usize,
    pub total_dirs: usize,
    pub total_size: u64,
}

/// Basic sanity facts that hold throughout a run: counts stay within the
/// number of processed events and per-bucket counts stay within the totals.
pub open spec fn agg_bounded(g: AggV, processed: int) -> bool {
    &&& 0 <= g.total_files <= processed
    &&& 0 <= g.total_dirs <= processed
    &&& 0 <= g.total_size
    &&& forall|i: int|
        0 <= i < g.buckets.len() ==> {
            &&& 0 <= #[trigger] g.buckets[i].size
            &&& 0 <= g.buckets[i].files <= g.total_files
            &&& 0 <= g.buckets[i].dirs <= g.total_dirs
        }
    &&& bucket_keys_unique(g.buckets)
}

/// Applying a delta never makes two buckets share a key.
proof fn lemma_bucket_upd_unique(
    gs: Seq<BucketV>,
    key: Option<Seq<char>>,
    du: int,
    df: int,
    dd: int,
)
    requires
        bucket_keys_unique(gs),
    ensures
        bucket_keys_unique(bucket_upd(gs, key, du, df, dd)),
{
    if exists|j: int| 0 <= j < gs.len() && (#[trigger] gs[j].key) == key {
        let j = choose|j: int| 0 <= j < gs.len() && (#[trigger] gs[j].key) == key;
        let jf = first_key_index(gs, key, j);
        lemma_bucket_upd_at(gs, jf, key, du, df, dd);
    } else {
        lemma_bucket_upd_new(gs, key, du, df, dd);
    }
}

/// The first index at or before `j` whose bucket has the key.
proof fn first_key_index(gs: Seq<BucketV>, key: Option<Seq<char>>, j: int) -> (r: int)
    requires
        0 <= j < gs.len(),
        gs[j].key == key,
    ensures
        0 <= r < gs.len(),
        gs[r].key == key,
        forall|i: int| 0 <= i < r ==> gs[i].key != key,
    decreases j,
{
    if exists|i: int| 0 <= i < j && (#[trigger] gs[i].key) == key {
        let i = choose|i: int| 0 <= i < j && (#[trigger] gs[i].key) == key;
        first_key_index(gs, key, i)
    } else {
        j
    }
}

/// Fold all events into per-bucket statistics and grand totals.
///
/// The result represents the exact ghost aggregation: counts are exact and
/// byte totals are the exact sums clamped to 64 bits.
pub fn aggregate_events(
    root: &FsPath,
    exclusions: &Vec<glob::Pattern>,
    max_depth: Option<usize>,
    events: &Vec<WalkEvent>,
) -> (r: Aggregation)
    ensures
        ({
            let g = agg_run(root@, pattern_sources(exclusions@), max_depth, events_view(events@));
            &&& buckets_abstract(r.buckets@, g.buckets)
            &&& r.total_files as int == g.total_files
            &&& r.total_dirs as int == g.total_dirs
            &&& r.total_size as int == clamp_u64(g.total_size)
            &&& agg_bounded(g, events@.len() as int)
        }),
{
    let ghost pats = pattern_sources(exclusions@);
    let ghost all = events_view(events@);
    let mut buckets: Vec<BucketAcc> = Vec::new();
    let mut seen: HashSet<u128> = HashSet::new();
    let mut total_files: usize = 0;
    let mut total_dirs: usize = 0;
    let mut total_size: u64 = 0;
    let ghost mut g = agg_init();
    let mut idx: usize = 0;
    proof {
        assert(all.skip(0) =~= all);
    }
    while idx < events.len()
        invariant
            idx <= events.len(),
            all == events_view(events@),
            pats == pattern_sources(exclusions@),
            all.len() == events@.len(),
            buckets_abstract(buckets@, g.buckets),
            seen@ == g.seen,
            total_files as int == g.total_files,
            total_dirs as int == g.total_dirs,
            total_size as int == clamp_u64(g.total_size),
            agg_bounded(g, idx as int),
            agg_from(g, root@, pats, max_depth, all.skip(idx as int)) == agg_run(
                root@,
                pats,
                max_depth,
                all,
            ),
        decreases events.len() - idx,
    {
        let e = &events[idx];
        proof {
            assert(all[idx as int] == e@);
            assert(all.skip(idx as int)[0] == all[idx as int]);
            assert(all.skip(idx as int).drop_first() =~= all.skip(idx as int + 1));
        }
        let ghost gnext = agg_step(g, root@, pats, max_depth, e@);
        let inc = check_included(root, exclusions, max_depth, e);
        if inc {
            match e {
                WalkEvent::File { path, dev, ino, usage } => {
                    let k = file_key(*dev, *ino);
                    let newly = seen.insert(k);
                    if newly {
                        total_files = total_files + 1;
                        total_size = sat_add_u64(total_size, *usage);
                        let bk: Option<String> = if path.components.len() == root.components.len()
                            + 1 {
                            Option::None
                        } else {
                            Option::Some(path.components[root.components.len()].clone())
                        };
                        proof {
                            assert(bk.deep_view() == event_bucket(root@, e@));
                        }
                        let ghost gsb = g.buckets;
                        let Ghost(g2) = bucket_add(&mut buckets, bk, *usage, 1, 0, Ghost(g.buckets));
                        proof {
                            lemma_bucket_upd_bounds(
                                gsb,
                                event_bucket(root@, e@),
                                *usage as int,
                                1,
                                0,
                                g.total_files,
                                g.total_dirs,
                            );
                            lemma_bucket_upd_unique(
                                gsb,
                                event_bucket(root@, e@),
                                *usage as int,
                                1,
                                0,
                            );
                            g = AggV {
                                buckets: g2,
                                seen: g.seen.insert(k),
                                total_files: g.total_files + 1,
                                total_dirs: g.total_dirs,
                                total_size: g.total_size + (*usage as int),
                            };
                            assert(g == gnext);
                        }
                    } else {
                        proof {
                            assert(g == gnext);
                        }
                    }
                },
                WalkEvent::Dir { path } => {
                    total_dirs = total_dirs + 1;
                    let bk: Option<String> = Option::Some(
                        path.components[root.components.len()].clone(),
                    );
                    proof {
                        assert(bk.deep_view() == event_bucket(root@, e@));
                    }
                    let ghost gsb = g.buckets;
                    let Ghost(g2) = bucket_add(&mut buckets, bk, 0, 0, 1, Ghost(g.buckets));
                    proof {
                        lemma_bucket_upd_bounds(
                            gsb,
                            event_bucket(root@, e@),
                            0,
                            0,
                            1,
                            g.total_files,
                            g.total_dirs,
                        );
                        lemma_bucket_upd_unique(gsb, event_bucket(root@, e@), 0, 0, 1);
                        g = AggV {
                            buckets: g2,
                            seen: g.seen,
                            total_files: g.total_files,
                            total_dirs: g.total_dirs + 1,
                            total_size: g.total_size,
                        };
                        assert(g == gnext);
                    }
                },
            }
        } else {
            proof {
                assert(g == gnext);
            }
        }
        idx = idx + 1;
    }
    proof {
        assert(all.skip(events@.len() as int) =~= Seq::<EventV>::empty());
    }
    Aggregation { buckets, total_files, total_dirs, total_size }
}

/// One aggregation step keeps the state within bounds.
pub proof fn lemma_agg_step_bounded(
    st: AggV,
    root: Seq<Seq<char>>,
    patterns: Seq<Seq<char>>,
    max_depth: Option<usize>,
    e: EventV,
    processed: int,
)
    requires
        agg_bounded(st, processed),
    ensures
        agg_bounded(agg_step(st, root, patterns, max_depth, e), processed + 1),
{
    if event_included(root, patterns, max_depth, e) {
        match e {
            EventV::File { path, key, usage } => {
                if !st.seen.contains(key) {
                    lemma_bucket_upd_bounds(
                        st.buckets,
                        event_bucket(root, e),
                        usage as int,
                        1,
                        0,
                        st.total_files,
                        st.total_dirs,
                    );
                    lemma_bucket_upd_unique(st.buckets, event_bucket(root, e), usage as int, 1, 0);
                }
            },
            EventV::Dir { path } => {
                lemma_bucket_upd_bounds(
                    st.buckets,
                    event_bucket(root, e),
                    0,
                    0,
                    1,
                    st.total_files,
                    st.total_dirs,
                );
                lemma_bucket_upd_unique(st.buckets, event_bucket(root, e), 0, 0, 1);
            },
        }
    }
}

/// Folding a sequence of events keeps the state within bounds.
pub proof fn lemma_agg_from_bounded(
    st: AggV,
    root: Seq<Seq<char>>,
    patterns: Seq<Seq<char>>,
    max_depth: Option<usize>,
    events: Seq<EventV>,
    processed: int,
)
    requires
        agg_bounded(st, processed),
    ensures
        agg_bounded(agg_from(st, root, patterns, max_depth, events), processed + events.len()),
    decreases events.len(),
{
    if events.len() > 0 {
        lemma_agg_step_bounded(st, root, patterns, max_depth, events[0], processed);
        lemma_agg_from_bounded(
            agg_step(st, root, patterns, max_depth, events[0]),
            root,
            patterns,
            max_depth,
            events.drop_first(),
            processed + 1,
        );
    }
}

/// A whole run stays within bounds: counts do not exceed the number of
/// events, per-bucket statistics stay within the totals, and bucket keys
/// are pairwise distinct.
pub proof fn lemma_agg_run_bounded(
    root: Seq<Seq<char>>,
    patterns: Seq<Seq<char>>,
    max_depth: Option<usize>,
    events: Seq<EventV>,
)
    ensures
        agg_bounded(agg_run(root, patterns, max_depth, events), events.len() as int),
{
    lemma_agg_from_bounded(agg_init(), root, patterns, max_depth, events, 0);
}

} // verus!


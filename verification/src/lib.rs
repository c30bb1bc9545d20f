//! Disk-usage analysis over directory-tree walk events.
//!
//! The analysis consumes a stream of file and directory events gathered by a
//! tree walker, deduplicates hard links by their identity keys, attributes
//! every physical file to the immediate child of the analyzed root it lies
//! under, and reports grand totals together with the largest buckets, sorted
//! descending by size with ties broken by path order.
//!
//! Reading the filesystem itself, command-line handling and printing live
//! outside this crate; they hand events in and take the result out.

pub mod aggregate;
pub mod events;
pub mod format;
pub mod laws;
pub mod matcher;
pub mod output;
pub mod paths;
pub mod rank;

pub use aggregate::DirectoryStats;
pub use matcher::AnalysisError;
pub use rank::DirectoryEntry;

use crate::aggregate::{agg_run, aggregate_events, buckets_abstract, clamp_u64, BucketV};
use crate::events::{events_view, EventV, WalkEvent};
use crate::matcher::{build_exclusion_matcher, glob_pattern_ok, pattern_sources, patterns_ok};
use crate::paths::FsPath;
use crate::rank::{entry_views, rank_entries, sort_entries, EntryV};
use vstd::prelude::*;

verus! {

/// Configuration options for disk usage analysis.
#[derive(Debug, Clone)]
pub struct AnalysisConfig {
    /// Maximum depth to traverse (`None` = unlimited).
    pub max_depth: Option<usize>,
    /// Glob patterns excluding any entry whose name matches one of them,
    /// together with everything beneath it.
    pub exclude_patterns: Vec<String>,
    /// Whether the walker follows symbolic links.
    pub follow_links: bool,
    /// Worker-parallelism hint for the walker (`None` = auto-detect).
    pub num_threads: Option<usize>,
}

impl Default for AnalysisConfig {
    fn default() -> (r: Self)
        ensures
            r.max_depth is None,
            r.exclude_patterns@.len() == 0,
            r.follow_links == false,
            r.num_threads is None,
    {
        AnalysisConfig {
            max_depth: Option::None,
            exclude_patterns: Vec::new(),
            follow_links: false,
            num_threads: Option::None,
        }
    }
}

/// Results of one disk usage analysis.
#[derive(Debug)]
pub struct AnalysisResult {
    /// Path that was analyzed.
    pub root_path: FsPath,
    /// Total size of all counted files in bytes.
    pub total_size: u64,
    /// Total number of counted files.
    pub total_files: usize,
    /// Total number of counted directories.
    pub total_dirs: usize,
    /// The largest buckets, sorted descending by size.
    pub top_directories: Vec<DirectoryEntry>,
}

/// The mathematical value of an analysis result.
pub ghost struct ResultV {
    pub root: Seq<Seq<char>>,
    pub total_size: int,
    pub total_files: int,
    pub total_dirs: int,
    pub top: Seq<EntryV>,
}

impl View for AnalysisResult {
    type V = ResultV;

    open spec fn view(&self) -> ResultV {
        ResultV {
            root: self.root_path@,
            total_size: self.total_size as int,
            total_files: self.total_files as int,
            total_dirs: self.total_dirs as int,
            top: entry_views(self.top_directories@),
        }
    }
}

/// The path reported for a bucket: the root for its own files' bucket, or
/// the root extended by the child name.
pub open spec fn spec_bucket_path(root: Seq<Seq<char>>, key: Option<Seq<char>>) -> Seq<Seq<char>> {
    match key {
        Option::None => root,
        Option::Some(c) => root.push(c),
    }
}

/// The reported entry of one bucket.
pub open spec fn entry_of_bucket(root: Seq<Seq<char>>, b: BucketV) -> EntryV {
    EntryV {
        path: spec_bucket_path(root, b.key),
        size: clamp_u64(b.size),
        files: b.files,
        dirs: b.dirs,
    }
}

pub open spec fn entries_of_buckets(root: Seq<Seq<char>>, gs: Seq<BucketV>) -> Seq<EntryV> {
    gs.map_values(|b: BucketV| entry_of_bucket(root, b))
}

/// The full analysis as a mathematical function of the inputs: aggregate all
/// events, report the exact totals clamped to 64 bits, and rank the complete
/// bucket set before truncating to the requested count.
pub open spec fn spec_analyze(
    root: Seq<Seq<char>>,
    patterns: Seq<Seq<char>>,
    max_depth: Option<usize>,
    events: Seq<EventV>,
    top_n: int,
) -> ResultV {
    let g = agg_run(root, patterns, max_depth, events);
    let sorted = sort_entries(entries_of_buckets(root, g.buckets));
    ResultV {
        root,
        total_size: clamp_u64(g.total_size),
        total_files: g.total_files,
        total_dirs: g.total_dirs,
        top: if top_n < sorted.len() {
            sorted.subrange(0, top_n)
        } else {
            sorted
        },
    }
}

/// Analyze a stream of walk events against a configuration.
///
/// Fails exactly when an exclusion pattern is invalid, naming the first such
/// pattern; otherwise the result is the value of `spec_analyze` on the
/// inputs.
pub fn analyze_events(
    root: &FsPath,
    config: &AnalysisConfig,
    events: &Vec<WalkEvent>,
    top_n: usize,
) -> (r: Result<AnalysisResult, AnalysisError>)
    ensures
        r is Ok <==> patterns_ok(config.exclude_patterns.deep_view()),
        r matches Ok(res) ==> res@ == spec_analyze(
            root@,
            config.exclude_patterns.deep_view(),
            config.max_depth,
            events_view(events@),
            top_n as int,
        ),
        r matches Err(e) ==> exists|i: int|
            {
                &&& 0 <= i < config.exclude_patterns.deep_view().len()
                &&& !glob_pattern_ok(#[trigger] config.exclude_patterns.deep_view()[i])
                &&& (forall|j: int|
                    0 <= j < i ==> glob_pattern_ok(
                        #[trigger] config.exclude_patterns.deep_view()[j],
                    ))
                &&& e matches AnalysisError::InvalidPattern(p) && p@
                    == config.exclude_patterns.deep_view()[i]
            },
{
    let exclusions = match build_exclusion_matcher(&config.exclude_patterns) {
        Result::Ok(x) => x,
        Result::Err(e) => {
            return Result::Err(e);
        },
    };
    let agg = aggregate_events(root, &exclusions, config.max_depth, events);
    let ghost g = agg_run(
        root@,
        config.exclude_patterns.deep_view(),
        config.max_depth,
        events_view(events@),
    );
    let mut entries: Vec<DirectoryEntry> = Vec::new();
    let mut i: usize = 0;
    proof {
        assert(entry_views(entries@) =~= entries_of_buckets(root@, g.buckets).subrange(0, 0));
    }
    while i < agg.buckets.len()
        invariant
            i <= agg.buckets.len(),
            buckets_abstract(agg.buckets@, g.buckets),
            entry_views(entries@) == entries_of_buckets(root@, g.buckets).subrange(0, i as int),
        decreases agg.buckets.len() - i,
    {
        let b = &agg.buckets[i];
        let path = match &b.key {
            Option::None => root.duplicate(),
            Option::Some(c) => root.child(c),
        };
        proof {
            assert(path@ == spec_bucket_path(root@, g.buckets[i as int].key));
        }
        let ghost prev = entry_views(entries@);
        entries.push(
            DirectoryEntry {
                path,
                size: b.stats.size,
                file_count: b.stats.file_count,
                dir_count: b.stats.dir_count,
            },
        );
        proof {
            assert(entry_views(entries@) =~= prev.push(
                entry_of_bucket(root@, g.buckets[i as int]),
            ));
            assert(prev.push(entry_of_bucket(root@, g.buckets[i as int])) =~= entries_of_buckets(
                root@,
                g.buckets,
            ).subrange(0, i + 1));
        }
        i = i + 1;
    }
    proof {
        assert(entries_of_buckets(root@, g.buckets).subrange(
            0,
            entries_of_buckets(root@, g.buckets).len() as int,
        ) =~= entries_of_buckets(root@, g.buckets));
    }
    let sorted = rank_entries(entries);
    let ghost sorted_v = sort_entries(entries_of_buckets(root@, g.buckets));
    let mut top = sorted;
    top.truncate(top_n);
    proof {
        if (top_n as int) < sorted_v.len() {
            assert(entry_views(top@) =~= sorted_v.subrange(0, top_n as int));
        }
    }
    let res = AnalysisResult {
        root_path: root.duplicate(),
        total_size: agg.total_size,
        total_files: agg.total_files,
        total_dirs: agg.total_dirs,
        top_directories: top,
    };
    proof {
        let specr = spec_analyze(
            root@,
            config.exclude_patterns.deep_view(),
            config.max_depth,
            events_view(events@),
            top_n as int,
        );
        assert(pattern_sources(exclusions@) == config.exclude_patterns.deep_view());
        assert(res@.root == specr.root);
        assert(res@.total_size == specr.total_size);
        assert(res@.total_files == specr.total_files);
        assert(res@.total_dirs == specr.total_dirs);
        assert(res@.top == specr.top);
        assert(res@ == specr);
    }
    Result::Ok(res)
}

} // verus!

//! Walker events and the rules deciding which events count.
//!
//! A traversal of the directory tree is abstracted as a stream of events:
//! one per file and one per directory encountered. The analysis decides for
//! each event whether it participates (depth limit, exclusion patterns) and
//! which bucket — immediate child of the analyzed root — it belongs to.

use crate::matcher::{is_excluded, name_excluded, pattern_sources};
use crate::paths::{is_path_prefix, FsPath};
use vstd::prelude::*;

verus! {

/// One observation made by the tree walker.
pub enum WalkEvent {
    /// A file, with the platform identity key of its underlying object
    /// (device and inode or an equivalent) and its allocated size in bytes.
    File { path: FsPath, dev: u64, ino: u64, usage: u64 },
    /// A directory.
    Dir { path: FsPath },
}

/// The mathematical value of a walk event.
pub ghost enum EventV {
    File { path: Seq<Seq<char>>, key: u128, usage: u64 },
    Dir { path: Seq<Seq<char>> },
}

/// The identity key of a physical file: device and inode packed into one
/// value. Distinct pairs give distinct keys.
pub open spec fn spec_file_key(dev: u64, ino: u64) -> u128 {
    ((dev as int) * 0x10000000000000000 + (ino as int)) as u128
}

impl View for WalkEvent {
    type V = EventV;

    open spec fn view(&self) -> EventV {
        match self {
            WalkEvent::File { path, dev, ino, usage } => EventV::File {
                path: path@,
                key: spec_file_key(*dev, *ino),
                usage: *usage,
            },
            WalkEvent::Dir { path } => EventV::Dir { path: path@ },
        }
    }
}

/// The mathematical values of a sequence of walk events.
pub open spec fn events_view(s: Seq<WalkEvent>) -> Seq<EventV> {
    s.map_values(|e: WalkEvent| e@)
}

pub open spec fn event_path(e: EventV) -> Seq<Seq<char>> {
    match e {
        EventV::File { path, .. } => path,
        EventV::Dir { path } => path,
    }
}

pub open spec fn event_is_file(e: EventV) -> bool {
    e is File
}

/// Whether an entry at `rel_len` components below the root passes the depth
/// limit: directories deeper than the maximum are pruned, while files one
/// level deeper still count (they sit inside a directory that was descended
/// into).
pub open spec fn depth_allowed(max_depth: Option<usize>, rel_len: int, is_file: bool) -> bool {
    match max_depth {
        Option::None => true,
        Option::Some(d) => if is_file {
            rel_len <= d + 1
        } else {
            rel_len <= d
        },
    }
}

/// Whether an event participates in the analysis: it lies strictly below the
/// root, no component of its path below the root is excluded, and it passes
/// the depth limit.
pub open spec fn event_included(
    root: Seq<Seq<char>>,
    patterns: Seq<Seq<char>>,
    max_depth: Option<usize>,
    e: EventV,
) -> bool {
    let p = event_path(e);
    &&& p.len() > root.len()
    &&& is_path_prefix(root, p)
    &&& (forall|i: int| root.len() <= i < p.len() ==> !name_excluded(patterns, #[trigger] p[i]))
    &&& depth_allowed(max_depth, p.len() - root.len(), event_is_file(e))
}

/// The bucket an included event belongs to: the first path component below
/// the root, or the root's own bucket (`None`) for a file directly in the
/// root.
pub open spec fn event_bucket(root: Seq<Seq<char>>, e: EventV) -> Option<Seq<char>> {
    let p = event_path(e);
    if event_is_file(e) && p.len() == root.len() + 1 {
        Option::None
    } else {
        Option::Some(p[root.len() as int])
    }
}

/// The packed identity key of a file.
pub fn file_key(dev: u64, ino: u64) -> (r: u128)
    ensures
        r == spec_file_key(dev, ino),
{
    (dev as u128) * 0x10000000000000000u128 + (ino as u128)
}

/// Decide whether an event participates in the analysis.
pub fn check_included(
    root: &FsPath,
    exclusions: &Vec<glob::Pattern>,
    max_depth: Option<usize>,
    e: &WalkEvent,
) -> (r: bool)
    ensures
        r == event_included(root@, pattern_sources(exclusions@), max_depth, e@),
{
    match e {
        WalkEvent::File { path, .. } => check_path_included(
            root,
            exclusions,
            max_depth,
            path,
            true,
        ),
        WalkEvent::Dir { path } => check_path_included(root, exclusions, max_depth, path, false),
    }
}

/// Decide inclusion from an event's path and kind alone.
fn check_path_included(
    root: &FsPath,
    exclusions: &Vec<glob::Pattern>,
    max_depth: Option<usize>,
    path: &FsPath,
    is_file: bool,
) -> (r: bool)
    ensures
        r == ({
            &&& path@.len() > root@.len()
            &&& is_path_prefix(root@, path@)
            &&& (forall|i: int|
                root@.len() <= i < path@.len() ==> !name_excluded(
                    pattern_sources(exclusions@),
                    #[trigger] path@[i],
                ))
            &&& depth_allowed(max_depth, path@.len() - root@.len(), is_file)
        }),
{
    if path.components.len() <= root.components.len() {
        return false;
    }
    if !path.starts_with(root) {
        return false;
    }
    let mut i: usize = root.components.len();
    while i < path.components.len()
        invariant
            root.components.len() <= i <= path.components.len(),
            forall|j: int|
                root@.len() <= j < i ==> !name_excluded(
                    pattern_sources(exclusions@),
                    #[trigger] path@[j],
                ),
        decreases path.components.len() - i,
    {
        if is_excluded(path.components[i].as_str(), exclusions) {
            proof {
                assert(path@[i as int] == path.components@[i as int]@);
                assert(name_excluded(pattern_sources(exclusions@), path@[i as int]));
            }
            return false;
        }
        i = i + 1;
    }
    let rel = path.components.len() - root.components.len();
    match max_depth {
        Option::None => true,
        Option::Some(d) => if is_file {
            rel - 1 <= d
        } else {
            rel <= d
        },
    }
}

} // verus!

//! Ranking of bucket entries: largest first, ties broken by path order.
//!
//! The ranked list is produced by sorting the complete entry set and
//! truncating afterwards; the comparison is total on entries with distinct
//! paths, so the ranked output is a function of the entry set alone.

use crate::paths::FsPath;
use vstd::prelude::*;

verus! {

/// A reported directory entry: bucket path, clamped byte total, counts.
pub ghost struct EntryV {
    pub path: Seq<Seq<char>>,
    pub size: int,
    pub files: int,
    pub dirs: int,
}

/// A snapshot of one bucket after the walk.
#[derive(Debug, Clone)]
pub struct DirectoryEntry {
    /// Path of the bucket (the root, or an immediate child of it).
    pub path: FsPath,
    /// Total size in bytes, saturating at the largest 64-bit value.
    pub size: u64,
    /// Number of files attributed to the bucket.
    pub file_count: usize,
    /// Number of subdirectories attributed to the bucket.
    pub dir_count: usize,
}

impl View for DirectoryEntry {
    type V = EntryV;

    open spec fn view(&self) -> EntryV {
        EntryV {
            path: self.path@,
            size: self.size as int,
            files: self.file_count as int,
            dirs: self.dir_count as int,
        }
    }
}

/// The values of a sequence of entries.
pub open spec fn entry_views(s: Seq<DirectoryEntry>) -> Seq<EntryV> {
    s.map_values(|d: DirectoryEntry| d@)
}

/// Strict lexicographic order on character sequences, by code point.
pub open spec fn lex_lt_chars(a: Seq<char>, b: Seq<char>) -> bool
    decreases a.len(),
{
    if b.len() == 0 {
        false
    } else if a.len() == 0 {
        true
    } else if a[0] != b[0] {
        (a[0] as int) < (b[0] as int)
    } else {
        lex_lt_chars(a.drop_first(), b.drop_first())
    }
}

/// Strict lexicographic order on paths: component by component.
pub open spec fn lex_lt_path(a: Seq<Seq<char>>, b: Seq<Seq<char>>) -> bool
    decreases a.len(),
{
    if b.len() == 0 {
        false
    } else if a.len() == 0 {
        true
    } else if a[0] != b[0] {
        lex_lt_chars(a[0], b[0])
    } else {
        lex_lt_path(a.drop_first(), b.drop_first())
    }
}

/// The ranking order: larger sizes first; equal sizes ordered by path.
pub open spec fn entry_before(a: EntryV, b: EntryV) -> bool {
    a.size > b.size || (a.size == b.size && lex_lt_path(a.path, b.path))
}

/// Every pair of a sequence is ordered: the ranking is strictly descending.
pub open spec fn ranked(s: Seq<EntryV>) -> bool {
    forall|i: int, j: int| 0 <= i < j < s.len() ==> entry_before(#[trigger] s[i], #[trigger] s[j])
}

/// No two entries share a path.
pub open spec fn distinct_paths(s: Seq<EntryV>) -> bool {
    forall|i: int, j: int|
        0 <= i < j < s.len() ==> (#[trigger] s[i]).path != (#[trigger] s[j]).path
}

/// Insert an entry behind every entry that ranks before it.
pub open spec fn insert_sorted(s: Seq<EntryV>, e: EntryV) -> Seq<EntryV>
    decreases s.len(),
{
    if s.len() == 0 {
        seq![e]
    } else if entry_before(s[0], e) {
        seq![s[0]] + insert_sorted(s.drop_first(), e)
    } else {
        seq![e] + s
    }
}

/// Insertion sort, folded over the input from the front.
pub open spec fn sort_from(acc: Seq<EntryV>, s: Seq<EntryV>) -> Seq<EntryV>
    decreases s.len(),
{
    if s.len() == 0 {
        acc
    } else {
        sort_from(insert_sorted(acc, s[0]), s.drop_first())
    }
}

/// The entries sorted by the ranking order.
pub open spec fn sort_entries(s: Seq<EntryV>) -> Seq<EntryV> {
    sort_from(Seq::empty(), s)
}

/// A shared prefix does not affect the character order.
proof fn lemma_lex_chars_skip(a: Seq<char>, b: Seq<char>, i: int)
    requires
        0 <= i <= a.len(),
        i <= b.len(),
        forall|j: int| 0 <= j < i ==> a[j] == b[j],
    ensures
        lex_lt_chars(a, b) == lex_lt_chars(a.skip(i), b.skip(i)),
    decreases i,
{
    if i == 0 {
        assert(a.skip(0) =~= a);
        assert(b.skip(0) =~= b);
    } else {
        lemma_lex_chars_skip(a.drop_first(), b.drop_first(), i - 1);
        assert(a.drop_first().skip(i - 1) =~= a.skip(i));
        assert(b.drop_first().skip(i - 1) =~= b.skip(i));
    }
}

/// A shared prefix does not affect the path order.
proof fn lemma_lex_path_skip(a: Seq<Seq<char>>, b: Seq<Seq<char>>, i: int)
    requires
        0 <= i <= a.len(),
        i <= b.len(),
        forall|j: int| 0 <= j < i ==> a[j] == b[j],
    ensures
        lex_lt_path(a, b) == lex_lt_path(a.skip(i), b.skip(i)),
    decreases i,
{
    if i == 0 {
        assert(a.skip(0) =~= a);
        assert(b.skip(0) =~= b);
    } else {
        lemma_lex_path_skip(a.drop_first(), b.drop_first(), i - 1);
        assert(a.drop_first().skip(i - 1) =~= a.skip(i));
        assert(b.drop_first().skip(i - 1) =~= b.skip(i));
    }
}

/// Distinct character sequences are ordered one way or the other.
proof fn lemma_lex_chars_connected(a: Seq<char>, b: Seq<char>)
    requires
        a != b,
    ensures
        lex_lt_chars(a, b) || lex_lt_chars(b, a),
    decreases a.len(),
{
    if b.len() == 0 {
        if a.len() == 0 {
            assert(a =~= b);
        }
    } else if a.len() == 0 {
    } else if a[0] != b[0] {
    } else {
        if a.drop_first() == b.drop_first() {
            assert(a.drop_first().len() == b.drop_first().len());
            assert(a.len() == b.len());
            assert forall|i: int| 0 <= i < a.len() implies a[i] == b[i] by {
                if i > 0 {
                    assert(a[i] == a.drop_first()[i - 1]);
                    assert(b[i] == b.drop_first()[i - 1]);
                }
            }
            assert(a =~= b);
        } else {
            lemma_lex_chars_connected(a.drop_first(), b.drop_first());
        }
    }
}

/// The character order is asymmetric.
proof fn lemma_lex_chars_asym(a: Seq<char>, b: Seq<char>)
    requires
        lex_lt_chars(a, b),
    ensures
        !lex_lt_chars(b, a),
    decreases a.len(),
{
    if b.len() == 0 {
    } else if a.len() == 0 {
    } else if a[0] != b[0] {
    } else {
        lemma_lex_chars_asym(a.drop_first(), b.drop_first());
    }
}

/// The character order is transitive.
proof fn lemma_lex_chars_trans(a: Seq<char>, b: Seq<char>, c: Seq<char>)
    requires
        lex_lt_chars(a, b),
        lex_lt_chars(b, c),
    ensures
        lex_lt_chars(a, c),
    decreases a.len(),
{
    if a.len() == 0 {
    } else {
        if a[0] == b[0] && b[0] == c[0] {
            lemma_lex_chars_trans(a.drop_first(), b.drop_first(), c.drop_first());
        }
    }
}

/// Distinct paths are ordered one way or the other.
proof fn lemma_lex_path_connected(a: Seq<Seq<char>>, b: Seq<Seq<char>>)
    requires
        a != b,
    ensures
        lex_lt_path(a, b) || lex_lt_path(b, a),
    decreases a.len(),
{
    if b.len() == 0 {
        if a.len() == 0 {
            assert(a =~= b);
        }
    } else if a.len() == 0 {
    } else if a[0] != b[0] {
        lemma_lex_chars_connected(a[0], b[0]);
    } else {
        if a.drop_first() == b.drop_first() {
            assert(a.drop_first().len() == b.drop_first().len());
            assert(a.len() == b.len());
            assert forall|i: int| 0 <= i < a.len() implies a[i] == b[i] by {
                if i > 0 {
                    assert(a[i] == a.drop_first()[i - 1]);
                    assert(b[i] == b.drop_first()[i - 1]);
                }
            }
            assert(a =~= b);
        } else {
            lemma_lex_path_connected(a.drop_first(), b.drop_first());
        }
    }
}

/// The path order is transitive.
proof fn lemma_lex_path_trans(a: Seq<Seq<char>>, b: Seq<Seq<char>>, c: Seq<Seq<char>>)
    requires
        lex_lt_path(a, b),
        lex_lt_path(b, c),
    ensures
        lex_lt_path(a, c),
    decreases a.len(),
{
    if a.len() == 0 {
    } else {
        if a[0] == b[0] && b[0] == c[0] {
            lemma_lex_path_trans(a.drop_first(), b.drop_first(), c.drop_first());
        } else if a[0] == b[0] {
            // the head order is decided between b and c
            assert(lex_lt_chars(b[0], c[0]));
        } else if b[0] == c[0] {
            assert(lex_lt_chars(a[0], b[0]));
        } else {
            if a[0] == c[0] {
                lemma_lex_chars_asym(a[0], b[0]);
            } else {
                lemma_lex_chars_trans(a[0], b[0], c[0]);
            }
        }
    }
}

/// Entries with distinct paths are ordered one way or the other.
pub proof fn lemma_entry_connected(a: EntryV, b: EntryV)
    requires
        a.path != b.path,
    ensures
        entry_before(a, b) || entry_before(b, a),
{
    if a.size == b.size {
        lemma_lex_path_connected(a.path, b.path);
    }
}

/// The ranking order is transitive.
pub proof fn lemma_entry_trans(a: EntryV, b: EntryV, c: EntryV)
    requires
        entry_before(a, b),
        entry_before(b, c),
    ensures
        entry_before(a, c),
{
    if a.size == b.size && b.size == c.size {
        lemma_lex_path_trans(a.path, b.path, c.path);
    }
}

/// Inserting at the scan position: all entries before `j` rank before `e`,
/// the one at `j` (if any) does not.
proof fn lemma_insert_sorted_position(s: Seq<EntryV>, e: EntryV, j: int)
    requires
        0 <= j <= s.len(),
        forall|i: int| 0 <= i < j ==> entry_before(#[trigger] s[i], e),
        j < s.len() ==> !entry_before(s[j], e),
    ensures
        insert_sorted(s, e) == s.subrange(0, j) + seq![e] + s.subrange(j, s.len() as int),
    decreases j,
{
    if j == 0 {
        assert(insert_sorted(s, e) =~= s.subrange(0, 0) + seq![e] + s.subrange(0, s.len() as int));
    } else {
        assert(entry_before(s[0], e));
        lemma_insert_sorted_position(s.drop_first(), e, j - 1);
        assert(insert_sorted(s, e) =~= s.subrange(0, j) + seq![e] + s.subrange(j, s.len() as int));
    }
}

/// Inserting an entry with a fresh path into a ranked sequence keeps it
/// ranked; the result holds exactly the old entries and the new one.
proof fn lemma_insert_sorted_ranked(s: Seq<EntryV>, e: EntryV)
    requires
        ranked(s),
        forall|i: int| 0 <= i < s.len() ==> (#[trigger] s[i]).path != e.path,
    ensures
        ranked(insert_sorted(s, e)),
        insert_sorted(s, e).len() == s.len() + 1,
        forall|x: EntryV| #[trigger]
            insert_sorted(s, e).contains(x) ==> (s.contains(x) || x == e),
        forall|x: EntryV| #[trigger] s.contains(x) ==> insert_sorted(s, e).contains(x),
        insert_sorted(s, e).contains(e),
    decreases s.len(),
{
    let r = insert_sorted(s, e);
    if s.len() == 0 {
        assert(r =~= seq![e]);
        assert(r[0] == e);
        assert(r.contains(e));
        assert forall|x: EntryV| #[trigger] r.contains(x) implies (s.contains(x) || x == e) by {
            let k = choose|k: int| 0 <= k < r.len() && r[k] == x;
            assert(r[k] == e);
        }
    } else if entry_before(s[0], e) {
        let tail = s.drop_first();
        assert forall|i: int| 0 <= i < tail.len() implies (#[trigger] tail[i]).path != e.path by {
            assert(tail[i] == s[i + 1]);
        }
        assert forall|i: int, j: int| 0 <= i < j < tail.len() implies entry_before(
            #[trigger] tail[i],
            #[trigger] tail[j],
        ) by {
            assert(tail[i] == s[i + 1] && tail[j] == s[j + 1]);
        }
        lemma_insert_sorted_ranked(tail, e);
        let it = insert_sorted(tail, e);
        assert(r =~= seq![s[0]] + it);
        assert forall|i: int, j: int| 0 <= i < j < r.len() implies entry_before(
            #[trigger] r[i],
            #[trigger] r[j],
        ) by {
            if i == 0 {
                assert(r[j] == it[j - 1]);
                assert(it.contains(it[j - 1]));
                if tail.contains(r[j]) {
                    let k = choose|k: int| 0 <= k < tail.len() && tail[k] == r[j];
                    assert(s[k + 1] == r[j]);
                    assert(entry_before(s[0], s[k + 1]));
                } else {
                    assert(r[j] == e);
                }
            } else {
                assert(r[i] == it[i - 1] && r[j] == it[j - 1]);
            }
        }
        assert(it.contains(e));
        let m = choose|m: int| 0 <= m < it.len() && it[m] == e;
        assert(r[m + 1] == e);
        assert(r.contains(e));
        assert forall|x: EntryV| #[trigger] r.contains(x) implies (s.contains(x) || x == e) by {
            let k = choose|k: int| 0 <= k < r.len() && r[k] == x;
            if k == 0 {
                assert(s[0] == x);
                assert(s.contains(x));
            } else {
                assert(it[k - 1] == x);
                assert(it.contains(x));
                if tail.contains(x) {
                    let n = choose|n: int| 0 <= n < tail.len() && tail[n] == x;
                    assert(s[n + 1] == x);
                    assert(s.contains(x));
                }
            }
        }
        assert forall|x: EntryV| #[trigger] s.contains(x) implies r.contains(x) by {
            let k = choose|k: int| 0 <= k < s.len() && s[k] == x;
            if k == 0 {
                assert(r[0] == x);
            } else {
                assert(tail[k - 1] == x);
                assert(tail.contains(x));
                assert(it.contains(x));
                let n = choose|n: int| 0 <= n < it.len() && it[n] == x;
                assert(r[n + 1] == x);
            }
            assert(r.contains(x));
        }
    } else {
        lemma_entry_connected(s[0], e);
        assert(entry_before(e, s[0]));
        assert(r =~= seq![e] + s);
        assert forall|i: int, j: int| 0 <= i < j < r.len() implies entry_before(
            #[trigger] r[i],
            #[trigger] r[j],
        ) by {
            if i == 0 {
                assert(r[j] == s[j - 1]);
                if j > 1 {
                    assert(entry_before(s[0], s[j - 1]));
                    lemma_entry_trans(e, s[0], s[j - 1]);
                }
            } else {
                assert(r[i] == s[i - 1] && r[j] == s[j - 1]);
            }
        }
        assert(r[0] == e);
        assert(r.contains(e));
        assert forall|x: EntryV| #[trigger] r.contains(x) implies (s.contains(x) || x == e) by {
            let k = choose|k: int| 0 <= k < r.len() && r[k] == x;
            if k > 0 {
                assert(s[k - 1] == x);
                assert(s.contains(x));
            }
        }
        assert forall|x: EntryV| #[trigger] s.contains(x) implies r.contains(x) by {
            let k = choose|k: int| 0 <= k < s.len() && s[k] == x;
            assert(r[k + 1] == x);
        }
    }
}

/// Sorting entries with pairwise-distinct paths yields a ranked sequence
/// holding exactly the input entries.
proof fn lemma_sort_from_ranked(acc: Seq<EntryV>, s: Seq<EntryV>)
    requires
        ranked(acc),
        forall|i: int, j: int|
            0 <= i < acc.len() && 0 <= j < s.len() ==> (#[trigger] acc[i]).path != (
            #[trigger] s[j]).path,
        distinct_paths(s),
    ensures
        ranked(sort_from(acc, s)),
        sort_from(acc, s).len() == acc.len() + s.len(),
        forall|x: EntryV| #[trigger]
            sort_from(acc, s).contains(x) ==> (acc.contains(x) || s.contains(x)),
        forall|x: EntryV| #[trigger] acc.contains(x) ==> sort_from(acc, s).contains(x),
        forall|x: EntryV| #[trigger] s.contains(x) ==> sort_from(acc, s).contains(x),
    decreases s.len(),
{
    if s.len() == 0 {
    } else {
        let e = s[0];
        lemma_insert_sorted_ranked(acc, e);
        let ins = insert_sorted(acc, e);
        let tail = s.drop_first();
        assert forall|i: int, j: int|
            0 <= i < ins.len() && 0 <= j < tail.len() implies (#[trigger] ins[i]).path != (
        #[trigger] tail[j]).path by {
            assert(ins.contains(ins[i]));
            assert(tail[j] == s[j + 1]);
            if acc.contains(ins[i]) {
                let k = choose|k: int| 0 <= k < acc.len() && acc[k] == ins[i];
            } else {
                assert(ins[i] == e);
            }
        }
        assert forall|i: int, j: int| 0 <= i < j < tail.len() implies (#[trigger] tail[i]).path
            != (#[trigger] tail[j]).path by {
            assert(tail[i] == s[i + 1] && tail[j] == s[j + 1]);
        }
        lemma_sort_from_ranked(ins, tail);
        let result = sort_from(acc, s);
        assert(result == sort_from(ins, tail));
        assert forall|x: EntryV| #[trigger] result.contains(x) implies (acc.contains(x)
            || s.contains(x)) by {
            if ins.contains(x) && !acc.contains(x) {
                assert(x == e);
                assert(s[0] == x);
                assert(s.contains(x));
            }
            if tail.contains(x) {
                let k = choose|k: int| 0 <= k < tail.len() && tail[k] == x;
                assert(s[k + 1] == x);
                assert(s.contains(x));
            }
        }
        assert forall|x: EntryV| #[trigger] s.contains(x) implies result.contains(x) by {
            let k = choose|k: int| 0 <= k < s.len() && s[k] == x;
            if k == 0 {
                assert(ins.contains(x));
            } else {
                assert(tail[k - 1] == x);
                assert(tail.contains(x));
            }
        }
        assert forall|x: EntryV| #[trigger] acc.contains(x) implies result.contains(x) by {
            assert(ins.contains(x));
        }
    }
}

/// The law behind the ranked list: sorting entries with pairwise-distinct
/// paths yields a strictly ordered sequence of exactly those entries.
pub proof fn lemma_sort_entries_ranked(s: Seq<EntryV>)
    requires
        distinct_paths(s),
    ensures
        ranked(sort_entries(s)),
        sort_entries(s).len() == s.len(),
        forall|x: EntryV| #[trigger] sort_entries(s).contains(x) ==> s.contains(x),
        forall|x: EntryV| #[trigger] s.contains(x) ==> sort_entries(s).contains(x),
{
    lemma_sort_from_ranked(Seq::empty(), s);
    assert forall|x: EntryV| #[trigger] sort_entries(s).contains(x) implies s.contains(x) by {
        if Seq::<EntryV>::empty().contains(x) {
            let k = choose|k: int| 0 <= k < 0 && Seq::<EntryV>::empty()[k] == x;
        }
    }
}

/// Compare two component names in the ranking's path order.
fn string_lt(a: &String, b: &String) -> (r: bool)
    ensures
        r == lex_lt_chars(a@, b@),
{
    let alen = a.as_str().unicode_len();
    let blen = b.as_str().unicode_len();
    let mut i: usize = 0;
    while i < alen && i < blen
        invariant
            i <= alen,
            i <= blen,
            alen == a@.len(),
            blen == b@.len(),
            forall|j: int| 0 <= j < i ==> a@[j] == b@[j],
        decreases alen - i,
    {
        let ca = a.as_str().get_char(i);
        let cb = b.as_str().get_char(i);
        if ca != cb {
            proof {
                lemma_lex_chars_skip(a@, b@, i as int);
            }
            return (ca as u32) < (cb as u32);
        }
        i = i + 1;
    }
    proof {
        lemma_lex_chars_skip(a@, b@, i as int);
    }
    i < blen
}

/// Compare two paths in the ranking's path order.
fn path_lt(a: &FsPath, b: &FsPath) -> (r: bool)
    ensures
        r == lex_lt_path(a@, b@),
{
    let alen = a.components.len();
    let blen = b.components.len();
    let mut i: usize = 0;
    while i < alen && i < blen
        invariant
            i <= alen,
            i <= blen,
            alen == a@.len(),
            blen == b@.len(),
            forall|j: int| 0 <= j < i ==> a@[j] == b@[j],
        decreases alen - i,
    {
        if !a.components[i].eq(&b.components[i]) {
            proof {
                lemma_lex_path_skip(a@, b@, i as int);
                assert(a@[i as int] == a.components@[i as int]@);
                assert(b@[i as int] == b.components@[i as int]@);
            }
            return string_lt(&a.components[i], &b.components[i]);
        }
        i = i + 1;
    }
    proof {
        lemma_lex_path_skip(a@, b@, i as int);
    }
    i < blen
}

/// Whether `a` ranks before `b`.
fn ranks_before(a: &DirectoryEntry, b: &DirectoryEntry) -> (r: bool)
    ensures
        r == entry_before(a@, b@),
{
    if a.size > b.size {
        true
    } else if a.size == b.size {
        path_lt(&a.path, &b.path)
    } else {
        false
    }
}

/// Insert an entry into an already ranked vector at its rank position.
fn insert_entry(v: &mut Vec<DirectoryEntry>, e: DirectoryEntry)
    ensures
        entry_views(final(v)@) == insert_sorted(entry_views(old(v)@), e@),
{
    let ghost orig = entry_views(v@);
    let mut j: usize = 0;
    while j < v.len() && ranks_before(&v[j], &e)
        invariant
            j <= v.len(),
            v@ == old(v)@,
            orig == entry_views(v@),
            forall|i: int| 0 <= i < j ==> entry_before(#[trigger] orig[i], e@),
        decreases v.len() - j,
    {
        proof {
            assert(orig[j as int] == v@[j as int]@);
        }
        j = j + 1;
    }
    proof {
        lemma_insert_sorted_position(orig, e@, j as int);
    }
    v.insert(j, e);
    proof {
        assert(entry_views(v@) =~= orig.subrange(0, j as int) + seq![e@] + orig.subrange(
            j as int,
            orig.len() as int,
        ));
    }
}

/// Sort the entries by the ranking order.
pub fn rank_entries(entries: Vec<DirectoryEntry>) -> (r: Vec<DirectoryEntry>)
    ensures
        entry_views(r@) == sort_entries(entry_views(entries@)),
{
    let ghost all = entry_views(entries@);
    let mut rest = entries;
    let mut out: Vec<DirectoryEntry> = Vec::new();
    proof {
        assert(entry_views(out@) =~= Seq::<EntryV>::empty());
    }
    while rest.len() > 0
        invariant
            sort_from(entry_views(out@), entry_views(rest@)) == sort_entries(all),
        decreases rest.len(),
    {
        let ghost prev_rest = entry_views(rest@);
        let ghost prev_out = entry_views(out@);
        let e = rest.remove(0);
        proof {
            assert(prev_rest[0] == e@);
            assert(entry_views(rest@) =~= prev_rest.drop_first());
        }
        insert_entry(&mut out, e);
        proof {
            assert(entry_views(out@) == insert_sorted(prev_out, e@));
        }
    }
    proof {
        assert(entry_views(rest@).len() == 0);
    }
    out
}

} // verus!

//! Filesystem paths as sequences of name components.
//!
//! The analysis never touches the filesystem itself; a path here is only the
//! list of its component names, from the root of the filesystem downward.

use vstd::prelude::*;
use vstd::string::StrSliceExecFns;

verus! {

/// A path represented as its sequence of name components.
#[derive(Debug, Clone)]
pub struct FsPath {
    pub components: Vec<String>,
}

impl View for FsPath {
    type V = Seq<Seq<char>>;

    open spec fn view(&self) -> Seq<Seq<char>> {
        self.components.deep_view()
    }
}

/// Splitting a character sequence on `/`, dropping empty components:
/// `acc` is the component collected so far.
pub open spec fn split_components(s: Seq<char>, acc: Seq<char>) -> Seq<Seq<char>>
    decreases s.len(),
{
    if s.len() == 0 {
        if acc.len() == 0 {
            seq![]
        } else {
            seq![acc]
        }
    } else if s[0] == '/' {
        (if acc.len() == 0 {
            seq![]
        } else {
            seq![acc]
        }) + split_components(s.drop_first(), seq![])
    } else {
        split_components(s.drop_first(), acc.push(s[0]))
    }
}

/// The components of a `/`-separated path string.
pub open spec fn spec_parse_path(s: Seq<char>) -> Seq<Seq<char>> {
    split_components(s, seq![])
}

/// `pre` is a (not necessarily proper) prefix of `p`.
pub open spec fn is_path_prefix(pre: Seq<Seq<char>>, p: Seq<Seq<char>>) -> bool {
    pre.len() <= p.len() && p.subrange(0, pre.len() as int) == pre
}

/// The immediate child of the root that a path lies under: the root
/// extended by the first component below it; the root itself for the root's
/// own path; and the path unchanged when it does not lie under the root.
pub open spec fn spec_immediate_subdir(path: Seq<Seq<char>>, root: Seq<Seq<char>>) -> Seq<
    Seq<char>,
> {
    if is_path_prefix(root, path) {
        if path.len() > root.len() {
            root.push(path[root.len() as int])
        } else {
            root
        }
    } else {
        path
    }
}

/// Relies on `String`'s `FromIterator<char>` implementation: collecting an
/// iterator of characters yields the string of exactly those characters in
/// order.
#[verifier::external_body]
fn chars_to_string(chars: &Vec<char>) -> (r: String)
    ensures
        r@ == chars@,
{
    chars.iter().collect()
}

impl FsPath {
    pub fn new(components: Vec<String>) -> (r: FsPath)
        ensures
            r@ == components.deep_view(),
    {
        FsPath { components }
    }

    /// Parse a `/`-separated path string into its components.
    /// Empty components (leading, trailing or doubled separators) are dropped.
    pub fn parse(s: &str) -> (r: FsPath)
        ensures
            r@ == spec_parse_path(s@),
    {
        let len = s.unicode_len();
        let mut comps: Vec<String> = Vec::new();
        let mut cur: Vec<char> = Vec::new();
        let mut i: usize = 0;
        proof {
            assert(s@.skip(0) =~= s@);
            assert(comps.deep_view() =~= Seq::<Seq<char>>::empty());
            assert(Seq::<Seq<char>>::empty() + split_components(s@, seq![]) =~= split_components(
                s@,
                seq![],
            ));
        }
        while i < len
            invariant
                i <= len,
                len == s@.len(),
                spec_parse_path(s@) == comps.deep_view() + split_components(
                    s@.skip(i as int),
                    cur@,
                ),
            decreases len - i,
        {
            let c = s.get_char(i);
            let ghost prev_comps = comps.deep_view();
            let ghost prev_cur = cur@;
            if c == '/' {
                if cur.len() > 0 {
                    let name = chars_to_string(&cur);
                    comps.push(name);
                    cur = Vec::new();
                } else {
                    cur = Vec::new();
                }
                proof {
                    assert(comps.deep_view() =~= if prev_cur.len() == 0 {
                        prev_comps
                    } else {
                        prev_comps.push(prev_cur)
                    });
                    assert(s@.skip(i as int).drop_first() =~= s@.skip(i + 1));
                    assert(prev_comps + ((if prev_cur.len() == 0 {
                        seq![]
                    } else {
                        seq![prev_cur]
                    }) + split_components(s@.skip(i + 1), seq![])) =~= comps.deep_view()
                        + split_components(s@.skip(i + 1), seq![]));
                }
            } else {
                cur.push(c);
                proof {
                    assert(s@.skip(i as int).drop_first() =~= s@.skip(i + 1));
                    assert(s@.skip(i as int)[0] == s@[i as int]);
                }
            }
            i = i + 1;
        }
        if cur.len() > 0 {
            let name = chars_to_string(&cur);
            let ghost prev_comps = comps.deep_view();
            comps.push(name);
            proof {
                assert(s@.skip(len as int) =~= Seq::<char>::empty());
                assert(comps.deep_view() =~= prev_comps.push(cur@));
                assert(prev_comps + seq![cur@] =~= prev_comps.push(cur@));
            }
        } else {
            proof {
                assert(s@.skip(len as int) =~= Seq::<char>::empty());
                assert(comps.deep_view() + seq![] =~= comps.deep_view());
            }
        }
        FsPath { components: comps }
    }

    /// A deep copy of this path.
    pub fn duplicate(&self) -> (r: FsPath)
        ensures
            r@ == self@,
    {
        let mut v: Vec<String> = Vec::new();
        let mut i: usize = 0;
        while i < self.components.len()
            invariant
                i <= self.components.len(),
                v.deep_view() == self@.subrange(0, i as int),
            decreases self.components.len() - i,
        {
            let ghost prev = v.deep_view();
            v.push(self.components[i].clone());
            proof {
                assert(v.deep_view() =~= prev.push(self@[i as int]));
                assert(prev.push(self@[i as int]) =~= self@.subrange(0, i + 1));
            }
            i = i + 1;
        }
        proof {
            assert(self@.subrange(0, self.components.len() as int) =~= self@);
        }
        FsPath { components: v }
    }

    /// The number of components.
    pub fn depth(&self) -> (r: usize)
        ensures
            r == self@.len(),
    {
        self.components.len()
    }

    /// Whether `pre` is a prefix of this path.
    pub fn starts_with(&self, pre: &FsPath) -> (r: bool)
        ensures
            r == is_path_prefix(pre@, self@),
    {
        if pre.components.len() > self.components.len() {
            return false;
        }
        let mut i: usize = 0;
        while i < pre.components.len()
            invariant
                i <= pre.components.len() <= self.components.len(),
                forall|j: int| 0 <= j < i ==> pre@[j] == self@[j],
            decreases pre.components.len() - i,
        {
            if !self.components[i].eq(&pre.components[i]) {
                proof {
                    assert(self@.subrange(0, pre@.len() as int)[i as int] != pre@[i as int]);
                }
                return false;
            }
            i = i + 1;
        }
        proof {
            assert(self@.subrange(0, pre@.len() as int) =~= pre@);
        }
        true
    }

    /// This path extended by one more component.
    pub fn child(&self, name: &String) -> (r: FsPath)
        ensures
            r@ == self@.push(name@),
    {
        let mut r = self.duplicate();
        let ghost prev = r@;
        r.components.push(name.clone());
        proof {
            assert(r@ =~= prev.push(name@));
        }
        r
    }
}

/// The immediate child of the root that a path lies under: the root
/// extended by the first component below it, the root itself for the root's
/// own path, or the path unchanged when it is not under the root.
pub fn find_immediate_subdir(path: &FsPath, root: &FsPath) -> (r: FsPath)
    ensures
        r@ == spec_immediate_subdir(path@, root@),
{
    if path.starts_with(root) {
        if path.components.len() > root.components.len() {
            root.child(&path.components[root.components.len()])
        } else {
            root.duplicate()
        }
    } else {
        path.duplicate()
    }
}

} // verus!

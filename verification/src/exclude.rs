//! The exclusion matcher: decides whether a path, taken as a sequence of
//! components, is pruned by a list of literal path-suffix patterns.

use vstd::prelude::*;

verus! {

/// A pattern matches a path exactly when the path's trailing component
/// sequence equals the pattern's own component sequence. There is no
/// wildcard or substring matching: a one-component pattern must equal the
/// final component character for character.
pub open spec fn suffix_matches(path: Seq<Seq<char>>, pat: Seq<Seq<char>>) -> bool {
    &&& path.len() >= pat.len()
    &&& path.subrange(path.len() - pat.len(), path.len() as int) == pat
}

/// A path is excluded exactly when some pattern of the list matches it.
pub open spec fn excluded(path: Seq<Seq<char>>, patterns: Seq<Seq<Seq<char>>>) -> bool {
    exists|k: int| 0 <= k < patterns.len() && suffix_matches(path, patterns[k])
}

/// Decides whether one pattern matches the path under the suffix rule.
fn pattern_matches(path: &Vec<String>, pat: &Vec<String>) -> (r: bool)
    ensures
        r == suffix_matches(path.deep_view(), pat.deep_view()),
{
    let ghost pdv = path.deep_view();
    let ghost qdv = pat.deep_view();
    if pat.len() > path.len() {
        return false;
    }
    let off = path.len() - pat.len();
    let mut i: usize = 0;
    while i < pat.len()
        invariant
            pdv == path.deep_view(),
            qdv == pat.deep_view(),
            pat.len() <= path.len(),
            off == path.len() - pat.len(),
            0 <= i <= pat.len(),
            forall|j: int| 0 <= j < i ==> pdv[off + j] == qdv[j],
        decreases pat.len() - i,
    {
        if path[off + i] != pat[i] {
            proof {
                if suffix_matches(pdv, qdv) {
                    assert(pdv.subrange(pdv.len() - qdv.len(), pdv.len() as int)[i as int]
                        == qdv[i as int]);
                }
            }
            return false;
        }
        i = i + 1;
    }
    proof {
        assert(pdv.subrange(pdv.len() - qdv.len(), pdv.len() as int) =~= qdv);
    }
    true
}

/// Decides whether `path` is pruned by the exclusion list `patterns`. Pure
/// predicate: the copy engine consults it once per visited entry, before
/// recursing, and a match prunes the entire subtree below the entry.
pub fn is_excluded(path: &Vec<String>, patterns: &Vec<Vec<String>>) -> (r: bool)
    ensures
        r == excluded(path.deep_view(), patterns.deep_view()),
{
    let mut k: usize = 0;
    while k < patterns.len()
        invariant
            0 <= k <= patterns.len(),
            forall|j: int| 0 <= j < k ==> !suffix_matches(
                path.deep_view(),
                patterns.deep_view()[j],
            ),
        decreases patterns.len() - k,
    {
        if pattern_matches(path, &patterns[k]) {
            assert(patterns.deep_view()[k as int] == patterns@[k as int].deep_view());
            return true;
        }
        k = k + 1;
    }
    false
}

} // verus!

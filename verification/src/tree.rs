//! The filesystem model: an in-memory snapshot of a subtree, its ghost
//! counterpart, and the leaf counter that sizes the progress indicator.

use vstd::prelude::*;

verus! {

/// Ghost model of a filesystem subtree. A file carries the two attributes the
/// engine compares (byte length and last-modified stamp); a directory carries
/// its named children in listing order.
#[verifier::ext_equal]
pub enum Tree {
    File { len: u64, mtime: u64 },
    Dir { entries: Seq<TreeEntry> },
}

/// One named child of a directory in the ghost model.
#[verifier::ext_equal]
pub struct TreeEntry {
    pub name: Seq<char>,
    pub tree: Tree,
}

/// In-memory snapshot of a filesystem subtree, handed to the library by the
/// shell that reads the real disk.
#[derive(Debug, PartialEq, Eq)]
pub enum FsTree {
    File { len: u64, mtime: u64 },
    Dir { entries: Vec<DirEntry> },
}

/// One named child of a snapshot directory.
#[derive(Debug, PartialEq, Eq)]
pub struct DirEntry {
    pub name: String,
    pub tree: FsTree,
}

/// Ghost counterpart of a snapshot subtree.
pub open spec fn tree_view(t: FsTree) -> Tree
    decreases t,
{
    match t {
        FsTree::File { len, mtime } => Tree::File { len, mtime },
        FsTree::Dir { entries } => Tree::Dir { entries: entries_view(entries@) },
    }
}

/// Ghost counterpart of a snapshot child list, in the same order.
pub open spec fn entries_view(s: Seq<DirEntry>) -> Seq<TreeEntry>
    decreases s,
{
    if s.len() == 0 {
        Seq::empty()
    } else {
        seq![entry_view(s[0])] + entries_view(s.subrange(1, s.len() as int))
    }
}

/// Ghost counterpart of one snapshot child.
pub open spec fn entry_view(e: DirEntry) -> TreeEntry
    decreases e,
{
    TreeEntry { name: e.name@, tree: tree_view(e.tree) }
}

impl View for FsTree {
    type V = Tree;

    open spec fn view(&self) -> Tree {
        tree_view(*self)
    }
}

impl View for DirEntry {
    type V = TreeEntry;

    open spec fn view(&self) -> TreeEntry {
        entry_view(*self)
    }
}

/// The ghost child list matches the snapshot child list element by element.
pub proof fn lemma_entries_view(s: Seq<DirEntry>)
    ensures
        entries_view(s).len() == s.len(),
        forall|i: int| 0 <= i < s.len() ==> entries_view(s)[i] == entry_view(s[i]),
    decreases s,
{
    if s.len() > 0 {
        let rest = s.subrange(1, s.len() as int);
        lemma_entries_view(rest);
        assert forall|i: int| 0 <= i < s.len() implies entries_view(s)[i] == entry_view(s[i]) by {
            if i > 0 {
                assert(rest[i - 1] == s[i]);
            }
        }
    }
}

/// Number of leaf (non-directory) entries in a subtree. A lone file counts
/// as one leaf; a directory contributes the sum over its children.
pub open spec fn leaf_count(t: Tree) -> nat
    decreases t,
{
    match t {
        Tree::File { .. } => 1,
        Tree::Dir { entries } => leaf_count_entries(entries),
    }
}

/// Number of leaf entries under a child list.
pub open spec fn leaf_count_entries(s: Seq<TreeEntry>) -> nat
    decreases s,
{
    if s.len() == 0 {
        0
    } else {
        leaf_count(s[0].tree) + leaf_count_entries(s.subrange(1, s.len() as int))
    }
}

/// Peeling any prefix off a child list splits its leaf count.
pub proof fn lemma_leaf_count_entries_split(s: Seq<TreeEntry>, k: int)
    requires
        0 <= k <= s.len(),
    ensures
        leaf_count_entries(s) == leaf_count_entries(s.subrange(0, k)) + leaf_count_entries(
            s.subrange(k, s.len() as int),
        ),
    decreases k,
{
    if k == 0 {
        assert(s.subrange(0, s.len() as int) =~= s);
    } else {
        let t = s.subrange(1, s.len() as int);
        lemma_leaf_count_entries_split(t, k - 1);
        assert(t.subrange(0, k - 1) =~= s.subrange(0, k).subrange(1, k));
        assert(t.subrange(k - 1, t.len() as int) =~= s.subrange(k, s.len() as int));
        assert(leaf_count_entries(s.subrange(0, k)) == leaf_count(s[0].tree)
            + leaf_count_entries(s.subrange(0, k).subrange(1, k)));
    }
}

/// Sibling names within one directory listing are distinct.
pub open spec fn distinct_names(s: Seq<TreeEntry>) -> bool {
    forall|i: int, j: int| 0 <= i < j < s.len() ==> s[i].name != s[j].name
}

/// A subtree is well formed when every directory's child names are
/// distinct, as a real directory listing guarantees.
pub open spec fn tree_wf(t: Tree) -> bool
    decreases t,
{
    match t {
        Tree::File { .. } => true,
        Tree::Dir { entries } => distinct_names(entries) && entries_wf(entries),
    }
}

/// Every subtree of a child list is well formed.
pub open spec fn entries_wf(s: Seq<TreeEntry>) -> bool
    decreases s,
{
    if s.len() == 0 {
        true
    } else {
        tree_wf(s[0].tree) && entries_wf(s.subrange(1, s.len() as int))
    }
}

/// Number of entries in a subtree, directories included: the structural
/// measure that recursive walks of a snapshot decrease.
pub open spec fn node_count(t: Tree) -> nat
    decreases t,
{
    match t {
        Tree::File { .. } => 1,
        Tree::Dir { entries } => 1 + node_count_entries(entries),
    }
}

/// Number of entries, directories included, under a child list.
pub open spec fn node_count_entries(s: Seq<TreeEntry>) -> nat
    decreases s,
{
    if s.len() == 0 {
        0
    } else {
        node_count(s[0].tree) + node_count_entries(s.subrange(1, s.len() as int))
    }
}

/// A child's subtree is no larger than the whole child list.
pub proof fn lemma_node_count_entries_member(s: Seq<TreeEntry>, i: int)
    requires
        0 <= i < s.len(),
    ensures
        node_count(s[i].tree) <= node_count_entries(s),
    decreases s,
{
    if i > 0 {
        let rest = s.subrange(1, s.len() as int);
        lemma_node_count_entries_member(rest, i - 1);
        assert(rest[i - 1] == s[i]);
    }
}

/// Counts the leaf entries of one snapshot subtree: the count a progress
/// indicator expects for this subtree, with exclusions deliberately ignored.
pub fn count_files_recursive(t: &FsTree) -> (r: u64)
    requires
        leaf_count(t@) <= u64::MAX,
    ensures
        r == leaf_count(t@),
    decreases node_count(t@),
{
    match t {
        FsTree::File { .. } => 1,
        FsTree::Dir { entries } => {
            let ghost gs = entries_view(entries@);
            proof {
                lemma_entries_view(entries@);
            }
            let mut total: u64 = 0;
            let mut i: usize = 0;
            while i < entries.len()
                invariant
                    0 <= i <= entries.len(),
                    gs == entries_view(entries@),
                    t@ == (Tree::Dir { entries: gs }),
                    gs.len() == entries.len(),
                    forall|j: int| 0 <= j < entries.len() ==> gs[j] == entry_view(entries@[j]),
                    leaf_count_entries(gs) <= u64::MAX,
                    total == leaf_count_entries(gs.subrange(0, i as int)),
                decreases entries.len() - i,
            {
                proof {
                    lemma_leaf_count_entries_split(gs, i as int);
                    lemma_leaf_count_entries_split(gs, i + 1);
                    assert(gs.subrange(i as int, gs.len() as int).subrange(
                        1,
                        gs.len() - i,
                    ) =~= gs.subrange(i + 1, gs.len() as int));
                    assert(leaf_count_entries(gs.subrange(i as int, gs.len() as int))
                        == leaf_count(gs[i as int].tree) + leaf_count_entries(
                        gs.subrange(i + 1, gs.len() as int),
                    ));
                }
                proof {
                    lemma_node_count_entries_member(gs, i as int);
                }
                let c = count_files_recursive(&entries[i].tree);
                total = total + c;
                assert(gs.subrange(0, i + 1).drop_last() =~= gs.subrange(0, i as int));
                assert(gs.subrange(0, i + 1).last() == gs[i as int]);
                proof {
                    lemma_leaf_count_entries_split(gs.subrange(0, i + 1), i as int);
                    assert(gs.subrange(0, i + 1).subrange(0, i as int) =~= gs.subrange(
                        0,
                        i as int,
                    ));
                    assert(gs.subrange(0, i + 1).subrange(i as int, i + 1) =~= seq![
                        gs[i as int],
                    ]);
                    assert(leaf_count_entries(seq![gs[i as int]]) == leaf_count(
                        gs[i as int].tree,
                    ) + leaf_count_entries(seq![gs[i as int]].subrange(1, 1)));
                    assert(seq![gs[i as int]].subrange(1, 1) =~= Seq::<TreeEntry>::empty());
                }
                i = i + 1;
            }
            assert(gs.subrange(0, gs.len() as int) =~= gs);
            total
        },
    }
}

} // verus!

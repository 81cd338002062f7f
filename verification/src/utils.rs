//! The copy engine and the file-counting pre-pass.
//!
//! `copy_recursive` walks a source snapshot and, for every entry, decides
//! whether to prune (exclusion), create a directory, copy a file, or skip it
//! under the overwrite and staleness rules. It returns the destination tree
//! as it stands after the walk together with the ordered action plan that an
//! unverified shell replays against the real disk. The ghost functions here
//! are the engine's specification: the executable walk is proved to return
//! exactly what `sync_model` describes.

use vstd::prelude::*;

use crate::exclude::excluded;
use crate::tree::{
    count_files_recursive, entries_view, leaf_count, node_count, tree_view, DirEntry, FsTree,
    Tree, TreeEntry,
};

verus! {

/// What the engine decides for one visited entry, in the order the rules are
/// evaluated: exclusion first, then directory versus file, then existence,
/// then the overwrite and staleness policy.
#[derive(Debug, Clone, Copy, PartialEq, Eq, Structural)]
pub enum CopyDecision {
    /// The entry's path matched an exclusion pattern; its whole subtree is
    /// pruned and nothing below it is visited or ticked.
    Excluded,
    /// The entry is a directory: the mirrored directory is ensured to exist
    /// (created together with missing ancestors, idempotently).
    DirectoryCreate,
    /// The entry is a file whose bytes and timestamp are (re)copied.
    FileCopy,
    /// The destination file exists and, under `overwrite`, matches the source
    /// in byte length, modification stamp, and final name: left untouched.
    FileSkipUnchanged,
    /// The destination file exists and `overwrite` is off: left untouched.
    FileSkipNoOverwrite,
}

/// One step of the plan a walk produces: the full source path of the visited
/// entry, and what the engine decided for it.
#[derive(Debug, PartialEq, Eq)]
pub struct SyncAction {
    pub path: Vec<String>,
    pub decision: CopyDecision,
}

/// Ghost counterpart of one plan step.
#[verifier::ext_equal]
pub struct PlanStep {
    pub path: Seq<Seq<char>>,
    pub decision: CopyDecision,
}

/// Ghost counterpart of an action.
pub open spec fn step_view(a: SyncAction) -> PlanStep {
    PlanStep { path: a.path.deep_view(), decision: a.decision }
}

/// Ghost counterpart of an action list, in the same order.
pub open spec fn actions_view(s: Seq<SyncAction>) -> Seq<PlanStep> {
    Seq::new(s.len(), |i: int| step_view(s[i]))
}

/// How a run can fail. A missing source root fails the job before any walk;
/// a traversal failure (here: a destination entry whose kind conflicts with
/// the source's, so that creating the directory or copying the file cannot
/// succeed) aborts the walk at that path.
#[derive(Debug, PartialEq, Eq)]
pub enum SyncError {
    SourceMissing { path: Vec<String> },
    Traversal { path: Vec<String> },
}

/// Ghost counterpart of a run failure.
#[verifier::ext_equal]
pub enum ErrView {
    SourceMissing { path: Seq<Seq<char>> },
    Traversal { path: Seq<Seq<char>> },
}

/// Ghost counterpart of an optional failure.
pub open spec fn err_view(e: Option<SyncError>) -> Option<ErrView> {
    match e {
        None => None,
        Some(SyncError::SourceMissing { path }) => Some(
            ErrView::SourceMissing { path: path.deep_view() },
        ),
        Some(SyncError::Traversal { path }) => Some(
            ErrView::Traversal { path: path.deep_view() },
        ),
    }
}

/// Ghost counterpart of an optional destination subtree.
pub open spec fn dest_view(d: Option<FsTree>) -> Option<Tree> {
    match d {
        None => None,
        Some(t) => Some(tree_view(t)),
    }
}

/// The subtree stored under `name` in a destination child list: the first
/// entry carrying that name, as the engine's linear search finds it.
pub open spec fn lookup(s: Seq<TreeEntry>, name: Seq<char>) -> Option<Tree>
    decreases s,
{
    if s.len() == 0 {
        None
    } else if s[0].name == name {
        Some(s[0].tree)
    } else {
        lookup(s.subrange(1, s.len() as int), name)
    }
}

/// A destination child list with `tree` stored under `name`: the first entry
/// carrying that name is replaced in place, or a new entry is appended.
pub open spec fn upsert(s: Seq<TreeEntry>, name: Seq<char>, tree: Tree) -> Seq<TreeEntry>
    decreases s,
{
    if s.len() == 0 {
        seq![TreeEntry { name, tree }]
    } else if s[0].name == name {
        seq![TreeEntry { name, tree }] + s.subrange(1, s.len() as int)
    } else {
        seq![s[0]] + upsert(s.subrange(1, s.len() as int), name, tree)
    }
}

/// What one walk of a source subtree yields: the destination subtree after
/// the walk (`None`: still absent), the ordered plan, and the path where the
/// walk aborted, if it did.
#[verifier::ext_equal]
pub struct SyncPlan {
    pub dest: Option<Tree>,
    pub steps: Seq<PlanStep>,
    pub error: Option<ErrView>,
}

/// What walking a directory's children yields: the destination child list
/// after the walk, the ordered plan, and the aborting path, if any.
#[verifier::ext_equal]
pub struct ChildrenPlan {
    pub entries: Seq<TreeEntry>,
    pub steps: Seq<PlanStep>,
    pub error: Option<ErrView>,
}

/// The decision procedure for one source file. `sp` is its full source path,
/// `dname` the final component of its destination path. In rule order:
/// an absent destination is copied to; an existing one is kept when
/// `overwrite` is off; otherwise it is kept exactly when byte length,
/// modification stamp, and final name all match, and recopied when they do
/// not. Copying onto an existing destination directory cannot succeed and
/// aborts without a progress tick.
pub open spec fn sync_file_model(
    len: u64,
    mtime: u64,
    sp: Seq<Seq<char>>,
    dname: Seq<char>,
    overwrite: bool,
    dest: Option<Tree>,
) -> SyncPlan {
    match dest {
        None => SyncPlan {
            dest: Some(Tree::File { len, mtime }),
            steps: seq![PlanStep { path: sp, decision: CopyDecision::FileCopy }],
            error: None,
        },
        Some(d) => if !overwrite {
            SyncPlan {
                dest: Some(d),
                steps: seq![PlanStep { path: sp, decision: CopyDecision::FileSkipNoOverwrite }],
                error: None,
            }
        } else {
            match d {
                Tree::File { len: dlen, mtime: dmtime } => if dlen == len && dmtime == mtime
                    && sp.last() == dname {
                    SyncPlan {
                        dest: Some(d),
                        steps: seq![
                            PlanStep { path: sp, decision: CopyDecision::FileSkipUnchanged },
                        ],
                        error: None,
                    }
                } else {
                    SyncPlan {
                        dest: Some(Tree::File { len, mtime }),
                        steps: seq![PlanStep { path: sp, decision: CopyDecision::FileCopy }],
                        error: None,
                    }
                },
                Tree::Dir { .. } => SyncPlan {
                    dest: Some(d),
                    steps: Seq::empty(),
                    error: Some(ErrView::Traversal { path: sp }),
                },
            }
        },
    }
}

/// The engine's full decision procedure for one source entry, in the fixed
/// order the rules are evaluated. An excluded path leaves the destination
/// untouched and prunes the subtree. A source directory ensures the mirrored
/// directory exists and walks its children in listing order; a destination
/// file standing where the directory must go aborts the walk there. A source
/// file follows `sync_file_model`.
pub open spec fn sync_model(
    source: Tree,
    sp: Seq<Seq<char>>,
    dname: Seq<char>,
    overwrite: bool,
    ex: Seq<Seq<Seq<char>>>,
    dest: Option<Tree>,
) -> SyncPlan
    decreases source,
{
    if excluded(sp, ex) {
        SyncPlan {
            dest,
            steps: seq![PlanStep { path: sp, decision: CopyDecision::Excluded }],
            error: None,
        }
    } else {
        match source {
            Tree::File { len, mtime } => sync_file_model(len, mtime, sp, dname, overwrite, dest),
            Tree::Dir { entries } => match dest {
                Some(Tree::File { .. }) => SyncPlan {
                    dest,
                    steps: Seq::empty(),
                    error: Some(ErrView::Traversal { path: sp }),
                },
                _ => {
                    let acc0 = match dest {
                        Some(Tree::Dir { entries: de }) => de,
                        _ => Seq::empty(),
                    };
                    let sub = sync_children_model(entries, sp, overwrite, ex, acc0);
                    SyncPlan {
                        dest: Some(Tree::Dir { entries: sub.entries }),
                        steps: seq![PlanStep { path: sp, decision: CopyDecision::DirectoryCreate }]
                            + sub.steps,
                        error: sub.error,
                    }
                },
            },
        }
    }
}

/// Walks a directory's children in listing order, threading the destination
/// child list through. A child's failure aborts the walk: its own partial
/// effects are kept and no later sibling is visited.
pub open spec fn sync_children_model(
    children: Seq<TreeEntry>,
    sp: Seq<Seq<char>>,
    overwrite: bool,
    ex: Seq<Seq<Seq<char>>>,
    acc: Seq<TreeEntry>,
) -> ChildrenPlan
    decreases children,
{
    if children.len() == 0 {
        ChildrenPlan { entries: acc, steps: Seq::empty(), error: None }
    } else {
        let c = children[0];
        let cp = sync_model(c.tree, sp.push(c.name), c.name, overwrite, ex, lookup(acc, c.name));
        let acc1 = match cp.dest {
            Some(t) => upsert(acc, c.name, t),
            None => acc,
        };
        match cp.error {
            Some(e) => ChildrenPlan { entries: acc1, steps: cp.steps, error: Some(e) },
            None => {
                let rest = sync_children_model(
                    children.subrange(1, children.len() as int),
                    sp,
                    overwrite,
                    ex,
                    acc1,
                );
                ChildrenPlan { entries: rest.entries, steps: cp.steps + rest.steps, error: rest.error }
            },
        }
    }
}

/// What one executable walk returns: the destination subtree after the walk,
/// the ordered action plan for the shell to replay, and the failure that
/// aborted the walk, if any.
#[derive(Debug, PartialEq, Eq)]
pub struct SyncOutcome {
    pub dest: Option<FsTree>,
    pub actions: Vec<SyncAction>,
    pub error: Option<SyncError>,
}

/// Ghost counterpart of a walk's outcome.
pub open spec fn outcome_view(r: SyncOutcome) -> SyncPlan {
    SyncPlan {
        dest: dest_view(r.dest),
        steps: actions_view(r.actions@),
        error: err_view(r.error),
    }
}

/// Duplicates a component path.
pub(crate) fn clone_path(p: &Vec<String>) -> (r: Vec<String>)
    ensures
        r@ == p@,
        r.deep_view() == p.deep_view(),
{
    let r = p.clone();
    proof {
        assert forall|i: int| 0 <= i < p@.len() implies r@[i] == p@[i] by {
            assert(vstd::pervasive::cloned::<String>(p@[i], r@[i]));
        }
        assert(r@ =~= p@);
        assert(r.deep_view() =~= p.deep_view());
    }
    r
}

/// Index of the first destination child carrying `name`, if any.
pub(crate) fn find_entry(entries: &Vec<DirEntry>, name: &String) -> (r: Option<usize>)
    ensures
        match r {
            Some(i) => 0 <= i < entries@.len() && entries@[i as int].name@ == name@
                && forall|j: int| 0 <= j < i ==> entries@[j].name@ != name@,
            None => forall|j: int| 0 <= j < entries@.len() ==> entries@[j].name@ != name@,
        },
{
    let mut i: usize = 0;
    while i < entries.len()
        invariant
            0 <= i <= entries@.len(),
            forall|j: int| 0 <= j < i ==> entries@[j].name@ != name@,
        decreases entries@.len() - i,
    {
        if entries[i].name == *name {
            return Some(i);
        }
        i = i + 1;
    }
    None
}

/// A linear search that stops at `i` finds what `lookup` describes.
pub(crate) proof fn lemma_lookup_found(s: Seq<TreeEntry>, name: Seq<char>, i: int)
    requires
        0 <= i < s.len(),
        s[i].name == name,
        forall|j: int| 0 <= j < i ==> s[j].name != name,
    ensures
        lookup(s, name) == Some(s[i].tree),
    decreases s,
{
    if i > 0 {
        let rest = s.subrange(1, s.len() as int);
        assert forall|j: int| 0 <= j < i - 1 implies rest[j].name != name by {
            assert(rest[j] == s[j + 1]);
        }
        assert(rest[i - 1] == s[i]);
        lemma_lookup_found(rest, name, i - 1);
    }
}

/// A linear search that finds nothing matches `lookup` finding nothing.
pub(crate) proof fn lemma_lookup_none(s: Seq<TreeEntry>, name: Seq<char>)
    requires
        forall|j: int| 0 <= j < s.len() ==> s[j].name != name,
    ensures
        lookup(s, name) == None::<Tree>,
    decreases s,
{
    if s.len() > 0 {
        let rest = s.subrange(1, s.len() as int);
        assert forall|j: int| 0 <= j < rest.len() implies rest[j].name != name by {
            assert(rest[j] == s[j + 1]);
        }
        lemma_lookup_none(rest, name);
    }
}

/// Storing under a name found at position `i` replaces that entry in place.
pub(crate) proof fn lemma_upsert_found(s: Seq<TreeEntry>, name: Seq<char>, tree: Tree, i: int)
    requires
        0 <= i < s.len(),
        s[i].name == name,
        forall|j: int| 0 <= j < i ==> s[j].name != name,
    ensures
        upsert(s, name, tree) == s.update(i, TreeEntry { name, tree }),
    decreases s,
{
    if i == 0 {
        assert(seq![TreeEntry { name, tree }] + s.subrange(1, s.len() as int) =~= s.update(
            0,
            TreeEntry { name, tree },
        ));
    } else {
        let rest = s.subrange(1, s.len() as int);
        assert forall|j: int| 0 <= j < i - 1 implies rest[j].name != name by {
            assert(rest[j] == s[j + 1]);
        }
        assert(rest[i - 1] == s[i]);
        lemma_upsert_found(rest, name, tree, i - 1);
        assert(seq![s[0]] + rest.update(i - 1, TreeEntry { name, tree }) =~= s.update(
            i,
            TreeEntry { name, tree },
        ));
    }
}

/// Storing under an absent name appends a new entry.
pub(crate) proof fn lemma_upsert_absent(s: Seq<TreeEntry>, name: Seq<char>, tree: Tree)
    requires
        forall|j: int| 0 <= j < s.len() ==> s[j].name != name,
    ensures
        upsert(s, name, tree) == s.push(TreeEntry { name, tree }),
    decreases s,
{
    if s.len() == 0 {
        assert(seq![TreeEntry { name, tree }] =~= s.push(TreeEntry { name, tree }));
    } else {
        let rest = s.subrange(1, s.len() as int);
        assert forall|j: int| 0 <= j < rest.len() implies rest[j].name != name by {
            assert(rest[j] == s[j + 1]);
        }
        lemma_upsert_absent(rest, name, tree);
        assert(seq![s[0]] + rest.push(TreeEntry { name, tree }) =~= s.push(
            TreeEntry { name, tree },
        ));
    }
}

/// The decision procedure for one source file, executably: returns exactly
/// what `sync_file_model` describes for the same inputs.
fn copy_file_entry(
    len: u64,
    mtime: u64,
    path: &Vec<String>,
    dest_name: &String,
    overwrite: bool,
    dest: Option<FsTree>,
) -> (r: SyncOutcome)
    requires
        path@.len() >= 1,
    ensures
        outcome_view(r) == sync_file_model(
            len,
            mtime,
            path.deep_view(),
            dest_name@,
            overwrite,
            dest_view(dest),
        ),
{
    let ghost plan = sync_file_model(
        len,
        mtime,
        path.deep_view(),
        dest_name@,
        overwrite,
        dest_view(dest),
    );
    let r = match dest {
        None => {
            let mut actions: Vec<SyncAction> = Vec::new();
            actions.push(SyncAction { path: clone_path(path), decision: CopyDecision::FileCopy });
            SyncOutcome { dest: Some(FsTree::File { len, mtime }), actions, error: None }
        },
        Some(d) => {
            if !overwrite {
                let mut actions: Vec<SyncAction> = Vec::new();
                actions.push(
                    SyncAction {
                        path: clone_path(path),
                        decision: CopyDecision::FileSkipNoOverwrite,
                    },
                );
                SyncOutcome { dest: Some(d), actions, error: None }
            } else {
                match d {
                    FsTree::File { len: dlen, mtime: dmtime } => {
                        if dlen == len && dmtime == mtime && path[path.len() - 1] == *dest_name {
                            let mut actions: Vec<SyncAction> = Vec::new();
                            actions.push(
                                SyncAction {
                                    path: clone_path(path),
                                    decision: CopyDecision::FileSkipUnchanged,
                                },
                            );
                            SyncOutcome {
                                dest: Some(FsTree::File { len: dlen, mtime: dmtime }),
                                actions,
                                error: None,
                            }
                        } else {
                            let mut actions: Vec<SyncAction> = Vec::new();
                            actions.push(
                                SyncAction {
                                    path: clone_path(path),
                                    decision: CopyDecision::FileCopy,
                                },
                            );
                            SyncOutcome { dest: Some(FsTree::File { len, mtime }), actions, error: None }
                        }
                    },
                    FsTree::Dir { entries } => {
                        SyncOutcome {
                            dest: Some(FsTree::Dir { entries }),
                            actions: Vec::new(),
                            error: Some(SyncError::Traversal { path: clone_path(path) }),
                        }
                    },
                }
            }
        },
    };
    proof {
        assert(path.deep_view().last() == path@[path@.len() - 1]@);
        assert(actions_view(r.actions@) =~= plan.steps);
        assert(outcome_view(r) =~= plan);
    }
    r
}

/// Progress ticks one plan step emits: every visited file entry ticks once,
/// whether copied or skipped; pruned subtrees and directories never tick.
pub open spec fn step_tick(d: CopyDecision) -> nat {
    match d {
        CopyDecision::FileCopy => 1,
        CopyDecision::FileSkipUnchanged => 1,
        CopyDecision::FileSkipNoOverwrite => 1,
        CopyDecision::Excluded => 0,
        CopyDecision::DirectoryCreate => 0,
    }
}

/// Progress ticks a whole plan emits.
pub open spec fn plan_ticks(steps: Seq<PlanStep>) -> nat
    decreases steps,
{
    if steps.len() == 0 {
        0
    } else {
        step_tick(steps[0].decision) + plan_ticks(steps.subrange(1, steps.len() as int))
    }
}

/// Byte copies one plan step performs.
pub open spec fn step_copy(d: CopyDecision) -> nat {
    match d {
        CopyDecision::FileCopy => 1,
        _ => 0,
    }
}

/// Byte copies a whole plan performs.
pub open spec fn plan_copies(steps: Seq<PlanStep>) -> nat
    decreases steps,
{
    if steps.len() == 0 {
        0
    } else {
        step_copy(steps[0].decision) + plan_copies(steps.subrange(1, steps.len() as int))
    }
}

/// Peeling any prefix off a plan splits its tick count.
pub proof fn lemma_plan_ticks_split(steps: Seq<PlanStep>, k: int)
    requires
        0 <= k <= steps.len(),
    ensures
        plan_ticks(steps) == plan_ticks(steps.subrange(0, k)) + plan_ticks(
            steps.subrange(k, steps.len() as int),
        ),
    decreases k,
{
    if k == 0 {
        assert(steps.subrange(0, steps.len() as int) =~= steps);
    } else {
        let t = steps.subrange(1, steps.len() as int);
        lemma_plan_ticks_split(t, k - 1);
        assert(t.subrange(0, k - 1) =~= steps.subrange(0, k).subrange(1, k));
        assert(t.subrange(k - 1, t.len() as int) =~= steps.subrange(k, steps.len() as int));
        assert(plan_ticks(steps.subrange(0, k)) == step_tick(steps[0].decision) + plan_ticks(
            steps.subrange(0, k).subrange(1, k),
        ));
    }
}

/// Peeling any prefix off a plan splits its copy count.
pub proof fn lemma_plan_copies_split(steps: Seq<PlanStep>, k: int)
    requires
        0 <= k <= steps.len(),
    ensures
        plan_copies(steps) == plan_copies(steps.subrange(0, k)) + plan_copies(
            steps.subrange(k, steps.len() as int),
        ),
    decreases k,
{
    if k == 0 {
        assert(steps.subrange(0, steps.len() as int) =~= steps);
    } else {
        let t = steps.subrange(1, steps.len() as int);
        lemma_plan_copies_split(t, k - 1);
        assert(t.subrange(0, k - 1) =~= steps.subrange(0, k).subrange(1, k));
        assert(t.subrange(k - 1, t.len() as int) =~= steps.subrange(k, steps.len() as int));
        assert(plan_copies(steps.subrange(0, k)) == step_copy(steps[0].decision) + plan_copies(
            steps.subrange(0, k).subrange(1, k),
        ));
    }
}

/// Counts the progress ticks an action plan emits when replayed.
pub fn count_ticks(actions: &Vec<SyncAction>) -> (r: u64)
    ensures
        r == plan_ticks(actions_view(actions@)),
{
    let ghost steps = actions_view(actions@);
    let mut total: u64 = 0;
    let mut i: usize = 0;
    while i < actions.len()
        invariant
            0 <= i <= actions@.len(),
            steps == actions_view(actions@),
            steps.len() == actions@.len(),
            total == plan_ticks(steps.subrange(0, i as int)),
            total <= i,
        decreases actions@.len() - i,
    {
        proof {
            lemma_plan_ticks_split(steps.subrange(0, i + 1), i as int);
            assert(steps.subrange(0, i + 1).subrange(0, i as int) =~= steps.subrange(0, i as int));
            assert(steps.subrange(0, i + 1).subrange(i as int, i + 1) =~= seq![steps[i as int]]);
            assert(seq![steps[i as int]].subrange(1, 1) =~= Seq::<PlanStep>::empty());
            assert(plan_ticks(Seq::<PlanStep>::empty()) == 0);
            assert(plan_ticks(seq![steps[i as int]]) == step_tick(steps[i as int].decision));
            assert(steps[i as int] == step_view(actions@[i as int]));
        }
        let tick = match actions[i].decision {
            CopyDecision::FileCopy => 1,
            CopyDecision::FileSkipUnchanged => 1,
            CopyDecision::FileSkipNoOverwrite => 1,
            CopyDecision::Excluded => 0,
            CopyDecision::DirectoryCreate => 0,
        };
        total = total + tick;
        i = i + 1;
    }
    proof {
        assert(steps.subrange(0, steps.len() as int) =~= steps);
    }
    total
}

/// Counts the byte copies an action plan performs when replayed.
pub fn count_copies(actions: &Vec<SyncAction>) -> (r: u64)
    ensures
        r == plan_copies(actions_view(actions@)),
{
    let ghost steps = actions_view(actions@);
    let mut total: u64 = 0;
    let mut i: usize = 0;
    while i < actions.len()
        invariant
            0 <= i <= actions@.len(),
            steps == actions_view(actions@),
            steps.len() == actions@.len(),
            total == plan_copies(steps.subrange(0, i as int)),
            total <= i,
        decreases actions@.len() - i,
    {
        proof {
            lemma_plan_copies_split(steps.subrange(0, i + 1), i as int);
            assert(steps.subrange(0, i + 1).subrange(0, i as int) =~= steps.subrange(0, i as int));
            assert(steps.subrange(0, i + 1).subrange(i as int, i + 1) =~= seq![steps[i as int]]);
            assert(seq![steps[i as int]].subrange(1, 1) =~= Seq::<PlanStep>::empty());
            assert(plan_copies(Seq::<PlanStep>::empty()) == 0);
            assert(plan_copies(seq![steps[i as int]]) == step_copy(steps[i as int].decision));
            assert(steps[i as int] == step_view(actions@[i as int]));
        }
        let c = match actions[i].decision {
            CopyDecision::FileCopy => 1,
            _ => 0,
        };
        total = total + c;
        i = i + 1;
    }
    proof {
        assert(steps.subrange(0, steps.len() as int) =~= steps);
    }
    total
}

/// A children walk resumed after some steps were already taken.
pub(crate) open spec fn resume(done: Seq<PlanStep>, rest: ChildrenPlan) -> ChildrenPlan {
    ChildrenPlan { entries: rest.entries, steps: done + rest.steps, error: rest.error }
}

/// Walks one source entry and mirrors it below its destination, executably:
/// returns exactly what `sync_model` describes for the same inputs. `path` is
/// the entry's full source path (at least the root component), `dest_name`
/// the final component of its destination path, and `dest` the snapshot of
/// what currently stands at the destination. The returned outcome carries the
/// destination subtree as the walk leaves it, the ordered action plan, and
/// the path of the conflict that aborted the walk, if one did.
pub fn copy_recursive(
    source: &FsTree,
    path: &Vec<String>,
    dest_name: &String,
    overwrite: bool,
    exclude: &Vec<Vec<String>>,
    dest: Option<FsTree>,
) -> (r: SyncOutcome)
    requires
        path@.len() >= 1,
    ensures
        outcome_view(r) == sync_model(
            source@,
            path.deep_view(),
            dest_name@,
            overwrite,
            exclude.deep_view(),
            dest_view(dest),
        ),
    decreases node_count(source@),
{
    let ghost spv = path.deep_view();
    let ghost exv = exclude.deep_view();
    let ghost plan = sync_model(source@, spv, dest_name@, overwrite, exv, dest_view(dest));
    if crate::exclude::is_excluded(path, exclude) {
        let mut actions: Vec<SyncAction> = Vec::new();
        actions.push(SyncAction { path: clone_path(path), decision: CopyDecision::Excluded });
        let r = SyncOutcome { dest, actions, error: None };
        proof {
            assert(actions_view(r.actions@) =~= plan.steps);
            assert(outcome_view(r) =~= plan);
        }
        return r;
    }
    match source {
        FsTree::File { len, mtime } => {
            let r = copy_file_entry(*len, *mtime, path, dest_name, overwrite, dest);
            proof {
                assert(source@ == (Tree::File { len: *len, mtime: *mtime }));
            }
            r
        },
        FsTree::Dir { entries } => {
            let ghost cs = entries_view(entries@);
            let ghost dv = dest_view(dest);
            proof {
                crate::tree::lemma_entries_view(entries@);
                assert(source@ == (Tree::Dir { entries: cs }));
            }
            let dest_blocks = match &dest {
                Some(FsTree::File { .. }) => true,
                _ => false,
            };
            if dest_blocks {
                let r = SyncOutcome {
                    dest,
                    actions: Vec::new(),
                    error: Some(SyncError::Traversal { path: clone_path(path) }),
                };
                proof {
                    assert(actions_view(r.actions@) =~= plan.steps);
                    assert(outcome_view(r) =~= plan);
                }
                return r;
            }
            let mut dentries: Vec<DirEntry> = match dest {
                Some(FsTree::Dir { entries: de }) => de,
                _ => Vec::new(),
            };
            let ghost acc0 = entries_view(dentries@);
            let ghost full = sync_children_model(cs, spv, overwrite, exv, acc0);
            let ghost dcstep = PlanStep { path: spv, decision: CopyDecision::DirectoryCreate };
            proof {
                assert(plan == (SyncPlan {
                    dest: Some(Tree::Dir { entries: full.entries }),
                    steps: seq![dcstep] + full.steps,
                    error: full.error,
                }));
            }
            let mut actions: Vec<SyncAction> = Vec::new();
            actions.push(
                SyncAction { path: clone_path(path), decision: CopyDecision::DirectoryCreate },
            );
            let mut error: Option<SyncError> = None;
            let mut no_error: bool = true;
            let ghost mut done = Seq::<PlanStep>::empty();
            let mut i: usize = 0;
            proof {
                assert(actions_view(actions@) =~= seq![dcstep] + done);
                assert(cs.subrange(0, cs.len() as int) =~= cs);
                assert(done + sync_children_model(cs, spv, overwrite, exv, acc0).steps
                    =~= sync_children_model(cs, spv, overwrite, exv, acc0).steps);
                assert(full == resume(
                    done,
                    sync_children_model(
                        cs.subrange(0, cs.len() as int),
                        spv,
                        overwrite,
                        exv,
                        entries_view(dentries@),
                    ),
                ));
            }
            while i < entries.len() && no_error
                invariant
                    0 <= i <= entries@.len(),
                    cs == entries_view(entries@),
                    cs.len() == entries@.len(),
                    forall|j: int| 0 <= j < entries@.len() ==> cs[j] == crate::tree::entry_view(
                        entries@[j],
                    ),
                    source@ == (Tree::Dir { entries: cs }),
                    spv == path.deep_view(),
                    exv == exclude.deep_view(),
                    path@.len() >= 1,
                    full == sync_children_model(cs, spv, overwrite, exv, acc0),
                    actions_view(actions@) == seq![dcstep] + done,
                    no_error == (error is None),
                    no_error ==> full == resume(
                        done,
                        sync_children_model(
                            cs.subrange(i as int, cs.len() as int),
                            spv,
                            overwrite,
                            exv,
                            entries_view(dentries@),
                        ),
                    ),
                    !no_error ==> full == (ChildrenPlan {
                        entries: entries_view(dentries@),
                        steps: done,
                        error: err_view(error),
                    }),
                decreases entries@.len() - i,
            {
                let child = &entries[i];
                let ghost done0 = done;
                let ghost acc_pre = entries_view(dentries@);
                let ghost suffix = cs.subrange(i as int, cs.len() as int);
                let ghost rest_model = sync_children_model(suffix, spv, overwrite, exv, acc_pre);
                proof {
                    crate::tree::lemma_entries_view(dentries@);
                    assert(suffix[0] == cs[i as int]);
                    assert(suffix.subrange(1, suffix.len() as int) =~= cs.subrange(
                        i + 1,
                        cs.len() as int,
                    ));
                    crate::tree::lemma_node_count_entries_member(cs, i as int);
                }
                let mut cpath = clone_path(path);
                cpath.push(child.name.clone());
                proof {
                    assert(cpath.deep_view() =~= spv.push(cs[i as int].name));
                }
                let idx = find_entry(&dentries, &child.name);
                let cdest: Option<FsTree> = match idx {
                    Some(ix) => Some(dentries.remove(ix).tree),
                    None => None,
                };
                proof {
                    match idx {
                        Some(ix) => {
                            lemma_lookup_found(acc_pre, cs[i as int].name, ix as int);
                        },
                        None => {
                            lemma_lookup_none(acc_pre, cs[i as int].name);
                        },
                    }
                    assert(dest_view(cdest) == lookup(acc_pre, cs[i as int].name));
                }
                let ghost cplan = sync_model(
                    cs[i as int].tree,
                    spv.push(cs[i as int].name),
                    cs[i as int].name,
                    overwrite,
                    exv,
                    lookup(acc_pre, cs[i as int].name),
                );
                let cr = copy_recursive(
                    &child.tree,
                    &cpath,
                    &child.name,
                    overwrite,
                    exclude,
                    cdest,
                );
                proof {
                    assert(outcome_view(cr) == cplan);
                }
                let SyncOutcome { dest: crdest, actions: mut cracts, error: crerr } = cr;
                let ghost acc1 = match cplan.dest {
                    Some(t) => upsert(acc_pre, cs[i as int].name, t),
                    None => acc_pre,
                };
                match crdest {
                    Some(t) => {
                        let ghost tv = tree_view(t);
                        match idx {
                            Some(ix) => {
                                dentries.insert(
                                    ix,
                                    DirEntry { name: child.name.clone(), tree: t },
                                );
                                proof {
                                    lemma_upsert_found(acc_pre, cs[i as int].name, tv, ix as int);
                                    crate::tree::lemma_entries_view(dentries@);
                                    assert(entries_view(dentries@) =~= acc1);
                                }
                            },
                            None => {
                                dentries.push(DirEntry { name: child.name.clone(), tree: t });
                                proof {
                                    lemma_upsert_absent(acc_pre, cs[i as int].name, tv);
                                    crate::tree::lemma_entries_view(dentries@);
                                    assert(entries_view(dentries@) =~= acc1);
                                }
                            },
                        }
                    },
                    None => {
                        proof {
                            assert(lookup(acc_pre, cs[i as int].name) is None);
                            assert(idx is None);
                            assert(entries_view(dentries@) == acc1);
                        }
                    },
                }
                let ghost acts0 = actions@;
                let ghost cracts0 = cracts@;
                actions.append(&mut cracts);
                proof {
                    done = done + cplan.steps;
                    assert(actions@ == acts0 + cracts0);
                    assert(actions_view(cracts0) == cplan.steps);
                    assert(actions_view(acts0) == seq![dcstep] + done0);
                    assert(actions_view(acts0).len() == acts0.len());
                    assert(actions_view(cracts0).len() == cracts0.len());
                    assert(acts0.len() == 1 + done0.len());
                    assert(cracts0.len() == cplan.steps.len());
                    assert(actions@.len() == acts0.len() + cracts0.len());
                    assert((seq![dcstep] + done).len() == actions@.len());
                    assert forall|j: int| 0 <= j < actions@.len() implies actions_view(actions@)[j]
                        == (seq![dcstep] + done)[j] by {
                        assert(actions_view(actions@)[j] == step_view(actions@[j]));
                        if j < acts0.len() {
                            assert(actions@[j] == acts0[j]);
                            assert(actions_view(acts0)[j] == step_view(acts0[j]));
                            assert(actions_view(acts0)[j] == (seq![dcstep] + done0)[j]);
                            if j > 0 {
                                assert((seq![dcstep] + done0)[j] == done0[j - 1]);
                                assert(done[j - 1] == done0[j - 1]);
                                assert((seq![dcstep] + done)[j] == done[j - 1]);
                            }
                        } else {
                            assert(actions@[j] == cracts0[j - acts0.len()]);
                            assert(actions_view(cracts0)[j - acts0.len()] == step_view(
                                cracts0[j - acts0.len()],
                            ));
                            assert(actions_view(cracts0)[j - acts0.len()] == cplan.steps[j
                                - acts0.len()]);
                            assert(done[j - 1] == cplan.steps[j - 1 - done0.len()]);
                            assert((seq![dcstep] + done)[j] == done[j - 1]);
                        }
                    }
                    assert(actions_view(actions@) =~= seq![dcstep] + done);
                }
                match crerr {
                    Some(e) => {
                        error = Some(e);
                        no_error = false;
                    },
                    None => {},
                }
                i = i + 1;
                proof {
                    assert(err_view(error) == cplan.error);
                    if cplan.error is Some {
                        assert(rest_model == (ChildrenPlan {
                            entries: acc1,
                            steps: cplan.steps,
                            error: cplan.error,
                        }));
                        assert(done0 + cplan.steps == done);
                        assert(full == (ChildrenPlan {
                            entries: entries_view(dentries@),
                            steps: done,
                            error: err_view(error),
                        }));
                    } else {
                        let rest2 = sync_children_model(
                            cs.subrange(i as int, cs.len() as int),
                            spv,
                            overwrite,
                            exv,
                            acc1,
                        );
                        assert(rest_model == (ChildrenPlan {
                            entries: rest2.entries,
                            steps: cplan.steps + rest2.steps,
                            error: rest2.error,
                        }));
                        assert(done0 + (cplan.steps + rest2.steps) =~= done + rest2.steps);
                        assert(full == resume(
                            done,
                            sync_children_model(
                                cs.subrange(i as int, cs.len() as int),
                                spv,
                                overwrite,
                                exv,
                                entries_view(dentries@),
                            ),
                        ));
                    }
                }
            }
            proof {
                if no_error {
                    assert(cs.subrange(i as int, cs.len() as int) =~= Seq::<TreeEntry>::empty());
                    assert(done + Seq::<PlanStep>::empty() =~= done);
                }
                assert(full == (ChildrenPlan {
                    entries: entries_view(dentries@),
                    steps: done,
                    error: err_view(error),
                }));
            }
            let r = SyncOutcome {
                dest: Some(FsTree::Dir { entries: dentries }),
                actions,
                error,
            };
            proof {
                assert(outcome_view(r) =~= plan);
            }
            r
        },
    }
}

/// One configured synchronization unit: the component paths of its source
/// and destination roots, its overwrite policy, and the snapshots of what
/// currently stands at those roots (`None`: the root does not exist).
#[derive(Debug, PartialEq, Eq)]
pub struct SyncJob {
    pub source_path: Vec<String>,
    pub dest_path: Vec<String>,
    pub overwrite: bool,
    pub source: Option<FsTree>,
    pub dest: Option<FsTree>,
}

/// Leaves a job's source root contributes to the progress ceiling. A missing
/// root contributes nothing: its per-root count failure is swallowed rather
/// than allowed to abort the whole sizing pass.
pub open spec fn job_leaf_count(job: SyncJob) -> nat {
    match job.source {
        Some(t) => leaf_count(tree_view(t)),
        None => 0,
    }
}

/// Leaves all jobs' source roots contribute together.
pub open spec fn total_leaf_count(jobs: Seq<SyncJob>) -> nat
    decreases jobs,
{
    if jobs.len() == 0 {
        0
    } else {
        job_leaf_count(jobs[0]) + total_leaf_count(jobs.subrange(1, jobs.len() as int))
    }
}

/// Peeling any prefix off a job list splits its leaf total.
pub proof fn lemma_total_leaf_count_split(jobs: Seq<SyncJob>, k: int)
    requires
        0 <= k <= jobs.len(),
    ensures
        total_leaf_count(jobs) == total_leaf_count(jobs.subrange(0, k)) + total_leaf_count(
            jobs.subrange(k, jobs.len() as int),
        ),
    decreases k,
{
    if k == 0 {
        assert(jobs.subrange(0, jobs.len() as int) =~= jobs);
    } else {
        let t = jobs.subrange(1, jobs.len() as int);
        lemma_total_leaf_count_split(t, k - 1);
        assert(t.subrange(0, k - 1) =~= jobs.subrange(0, k).subrange(1, k));
        assert(t.subrange(k - 1, t.len() as int) =~= jobs.subrange(k, jobs.len() as int));
        assert(total_leaf_count(jobs.subrange(0, k)) == job_leaf_count(jobs[0])
            + total_leaf_count(jobs.subrange(0, k).subrange(1, k)));
    }
}

/// Counts the leaf entries under every job's source root: the ceiling the
/// shared progress indicator is sized to before any copy work starts.
/// Exclusions are deliberately not applied here, so the indicator may finish
/// below its ceiling when exclusions prune entries later; a missing source
/// root contributes zero.
pub fn count_files(jobs: &Vec<SyncJob>) -> (r: u64)
    requires
        total_leaf_count(jobs@) <= u64::MAX,
    ensures
        r == total_leaf_count(jobs@),
{
    let mut total: u64 = 0;
    let mut i: usize = 0;
    while i < jobs.len()
        invariant
            0 <= i <= jobs@.len(),
            total_leaf_count(jobs@) <= u64::MAX,
            total == total_leaf_count(jobs@.subrange(0, i as int)),
        decreases jobs@.len() - i,
    {
        proof {
            lemma_total_leaf_count_split(jobs@, i as int);
            lemma_total_leaf_count_split(jobs@, i + 1);
            assert(jobs@.subrange(i as int, jobs@.len() as int).subrange(
                1,
                jobs@.len() - i,
            ) =~= jobs@.subrange(i + 1, jobs@.len() as int));
            assert(total_leaf_count(jobs@.subrange(i as int, jobs@.len() as int))
                == job_leaf_count(jobs@[i as int]) + total_leaf_count(
                jobs@.subrange(i + 1, jobs@.len() as int),
            ));
            lemma_total_leaf_count_split(jobs@.subrange(0, i + 1), i as int);
            assert(jobs@.subrange(0, i + 1).subrange(0, i as int) =~= jobs@.subrange(0, i as int));
            assert(jobs@.subrange(0, i + 1).subrange(i as int, i + 1) =~= seq![jobs@[i as int]]);
            assert(seq![jobs@[i as int]].subrange(1, 1) =~= Seq::<SyncJob>::empty());
            assert(total_leaf_count(seq![jobs@[i as int]]) == job_leaf_count(jobs@[i as int]));
        }
        let c = match &jobs[i].source {
            Some(t) => count_files_recursive(t),
            None => 0,
        };
        total = total + c;
        i = i + 1;
    }
    proof {
        assert(jobs@.subrange(0, jobs@.len() as int) =~= jobs@);
    }
    total
}

} // verus!

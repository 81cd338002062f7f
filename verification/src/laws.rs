//! Proved laws of the engine: what holds of every run, stated over the ghost
//! model that the executable walks are proved to return.

use vstd::prelude::*;

use crate::backup::job_model;
use crate::exclude::excluded;
use crate::tree::{
    distinct_names, entries_wf, leaf_count, leaf_count_entries, tree_wf, Tree, TreeEntry,
};
use crate::utils::{
    job_leaf_count, lookup, plan_copies, plan_ticks, step_copy, step_tick, sync_children_model,
    sync_file_model, sync_model, total_leaf_count, upsert, CopyDecision, PlanStep, SyncJob,
    SyncPlan,
};

verus! {

/// A one-step plan ticks as its step does.
proof fn lemma_plan_ticks_single(s: PlanStep)
    ensures
        plan_ticks(seq![s]) == step_tick(s.decision),
{
    assert(seq![s].subrange(1, 1) =~= Seq::<PlanStep>::empty());
    assert(plan_ticks(Seq::<PlanStep>::empty()) == 0);
}

/// A one-step plan copies as its step does.
proof fn lemma_plan_copies_single(s: PlanStep)
    ensures
        plan_copies(seq![s]) == step_copy(s.decision),
{
    assert(seq![s].subrange(1, 1) =~= Seq::<PlanStep>::empty());
    assert(plan_copies(Seq::<PlanStep>::empty()) == 0);
}

/// Concatenated plans tick separately.
proof fn lemma_plan_ticks_concat(a: Seq<PlanStep>, b: Seq<PlanStep>)
    ensures
        plan_ticks(a + b) == plan_ticks(a) + plan_ticks(b),
{
    crate::utils::lemma_plan_ticks_split(a + b, a.len() as int);
    assert((a + b).subrange(0, a.len() as int) =~= a);
    assert((a + b).subrange(a.len() as int, (a + b).len() as int) =~= b);
}

/// Concatenated plans copy separately.
proof fn lemma_plan_copies_concat(a: Seq<PlanStep>, b: Seq<PlanStep>)
    ensures
        plan_copies(a + b) == plan_copies(a) + plan_copies(b),
{
    crate::utils::lemma_plan_copies_split(a + b, a.len() as int);
    assert((a + b).subrange(0, a.len() as int) =~= a);
    assert((a + b).subrange(a.len() as int, (a + b).len() as int) =~= b);
}

/// An excluded path is pruned outright: the walk leaves the destination
/// exactly as it was, emits no progress tick and no byte copy, fails
/// nothing, and records the one pruning decision — nothing below the
/// entry is visited, so not even an empty directory appears.
pub proof fn lemma_exclusion_prunes(
    source: Tree,
    sp: Seq<Seq<char>>,
    dname: Seq<char>,
    overwrite: bool,
    ex: Seq<Seq<Seq<char>>>,
    dest: Option<Tree>,
)
    requires
        excluded(sp, ex),
    ensures
        ({
            let p = sync_model(source, sp, dname, overwrite, ex, dest);
            &&& p.dest == dest
            &&& p.error is None
            &&& p.steps == seq![PlanStep { path: sp, decision: CopyDecision::Excluded }]
            &&& plan_ticks(p.steps) == 0
            &&& plan_copies(p.steps) == 0
        }),
{
    let s = PlanStep { path: sp, decision: CopyDecision::Excluded };
    lemma_plan_ticks_single(s);
    lemma_plan_copies_single(s);
}

/// One walk never ticks more than the leaf count of its source subtree: the
/// counting pre-pass is an upper bound for the progress a walk emits, and
/// the indicator under-runs its ceiling rather than over-running it.
pub proof fn lemma_ticks_within_ceiling(
    source: Tree,
    sp: Seq<Seq<char>>,
    dname: Seq<char>,
    overwrite: bool,
    ex: Seq<Seq<Seq<char>>>,
    dest: Option<Tree>,
)
    ensures
        plan_ticks(sync_model(source, sp, dname, overwrite, ex, dest).steps) <= leaf_count(
            source,
        ),
    decreases source,
{
    let p = sync_model(source, sp, dname, overwrite, ex, dest);
    if excluded(sp, ex) {
        lemma_plan_ticks_single(PlanStep { path: sp, decision: CopyDecision::Excluded });
    } else {
        match source {
            Tree::File { len, mtime } => {
                assert(plan_ticks(Seq::<PlanStep>::empty()) == 0);
                if p.steps.len() == 1 {
                    lemma_plan_ticks_single(p.steps[0]);
                    assert(seq![p.steps[0]] =~= p.steps);
                }
            },
            Tree::Dir { entries } => {
                match dest {
                    Some(Tree::File { .. }) => {
                        assert(plan_ticks(Seq::<PlanStep>::empty()) == 0);
                    },
                    _ => {
                        let acc0 = match dest {
                            Some(Tree::Dir { entries: de }) => de,
                            _ => Seq::<TreeEntry>::empty(),
                        };
                        let sub = sync_children_model(entries, sp, overwrite, ex, acc0);
                        let dc = PlanStep { path: sp, decision: CopyDecision::DirectoryCreate };
                        lemma_children_ticks_within_ceiling(entries, sp, overwrite, ex, acc0);
                        lemma_plan_ticks_concat(seq![dc], sub.steps);
                        lemma_plan_ticks_single(dc);
                    },
                }
            },
        }
    }
}

/// A children walk never ticks more than the children's leaf count.
proof fn lemma_children_ticks_within_ceiling(
    children: Seq<TreeEntry>,
    sp: Seq<Seq<char>>,
    overwrite: bool,
    ex: Seq<Seq<Seq<char>>>,
    acc: Seq<TreeEntry>,
)
    ensures
        plan_ticks(sync_children_model(children, sp, overwrite, ex, acc).steps)
            <= leaf_count_entries(children),
    decreases children,
{
    if children.len() > 0 {
        let c = children[0];
        let rest = children.subrange(1, children.len() as int);
        let cp = sync_model(c.tree, sp.push(c.name), c.name, overwrite, ex, lookup(acc, c.name));
        lemma_ticks_within_ceiling(c.tree, sp.push(c.name), c.name, overwrite, ex, lookup(
            acc,
            c.name,
        ));
        let acc1 = match cp.dest {
            Some(t) => upsert(acc, c.name, t),
            None => acc,
        };
        match cp.error {
            Some(_) => {},
            None => {
                lemma_children_ticks_within_ceiling(rest, sp, overwrite, ex, acc1);
                lemma_plan_ticks_concat(
                    cp.steps,
                    sync_children_model(rest, sp, overwrite, ex, acc1).steps,
                );
            },
        }
    }
}

/// Progress ticks all jobs of a run emit together, in the jobs' order.
pub open spec fn total_job_ticks(jobs: Seq<SyncJob>, ex: Seq<Seq<Seq<char>>>) -> nat
    decreases jobs,
{
    if jobs.len() == 0 {
        0
    } else {
        plan_ticks(job_model(jobs[0], ex).steps) + total_job_ticks(
            jobs.subrange(1, jobs.len() as int),
            ex,
        )
    }
}

/// One job never ticks more than the leaves its source root contributed to
/// the ceiling; a job whose source root is missing never ticks at all.
pub proof fn lemma_job_ticks_within_ceiling(job: SyncJob, ex: Seq<Seq<Seq<char>>>)
    ensures
        plan_ticks(job_model(job, ex).steps) <= job_leaf_count(job),
{
    match job.source {
        None => {
            assert(plan_ticks(Seq::<PlanStep>::empty()) == 0);
        },
        Some(src) => {
            lemma_ticks_within_ceiling(
                crate::tree::tree_view(src),
                job.source_path.deep_view(),
                job.dest_path.deep_view().last(),
                job.overwrite,
                ex,
                crate::utils::dest_view(job.dest),
            );
        },
    }
}

/// A whole orchestration never ticks past the ceiling the counting pre-pass
/// computed: the shared indicator under-runs its total when exclusions prune
/// entries or jobs fail, and never over-runs it.
pub proof fn lemma_run_within_ceiling(jobs: Seq<SyncJob>, ex: Seq<Seq<Seq<char>>>)
    ensures
        total_job_ticks(jobs, ex) <= total_leaf_count(jobs),
    decreases jobs,
{
    if jobs.len() > 0 {
        lemma_job_ticks_within_ceiling(jobs[0], ex);
        lemma_run_within_ceiling(jobs.subrange(1, jobs.len() as int), ex);
    }
}

/// After storing under a name, that name is found with the stored subtree.
proof fn lemma_lookup_upsert_same(s: Seq<TreeEntry>, name: Seq<char>, tree: Tree)
    ensures
        lookup(upsert(s, name, tree), name) == Some(tree),
    decreases s,
{
    let e = TreeEntry { name, tree };
    if s.len() == 0 {
        assert(lookup(seq![e], name) == Some(tree));
    } else if s[0].name == name {
        let u = seq![e] + s.subrange(1, s.len() as int);
        assert(u[0] == e);
    } else {
        let rest = s.subrange(1, s.len() as int);
        lemma_lookup_upsert_same(rest, name, tree);
        let u = seq![s[0]] + upsert(rest, name, tree);
        assert(u[0] == s[0]);
        assert(u.subrange(1, u.len() as int) =~= upsert(rest, name, tree));
    }
}

/// Storing under one name leaves every other name's lookup unchanged.
proof fn lemma_lookup_upsert_other(s: Seq<TreeEntry>, name: Seq<char>, tree: Tree, m: Seq<char>)
    requires
        m != name,
    ensures
        lookup(upsert(s, name, tree), m) == lookup(s, m),
    decreases s,
{
    let e = TreeEntry { name, tree };
    if s.len() == 0 {
        assert(seq![e].subrange(1, 1) =~= Seq::<TreeEntry>::empty());
        assert(lookup(seq![e], m) == lookup(Seq::<TreeEntry>::empty(), m));
    } else if s[0].name == name {
        let u = seq![e] + s.subrange(1, s.len() as int);
        assert(u[0] == e);
        assert(u.subrange(1, u.len() as int) =~= s.subrange(1, s.len() as int));
    } else {
        let rest = s.subrange(1, s.len() as int);
        lemma_lookup_upsert_other(rest, name, tree, m);
        let u = seq![s[0]] + upsert(rest, name, tree);
        assert(u[0] == s[0]);
        assert(u.subrange(1, u.len() as int) =~= upsert(rest, name, tree));
    }
}

/// Storing back what a name already holds changes nothing.
proof fn lemma_upsert_noop(s: Seq<TreeEntry>, name: Seq<char>, tree: Tree)
    requires
        lookup(s, name) == Some(tree),
    ensures
        upsert(s, name, tree) == s,
    decreases s,
{
    if s.len() == 0 {
    } else if s[0].name == name {
        assert(TreeEntry { name, tree } =~= s[0]);
        assert(seq![TreeEntry { name, tree }] + s.subrange(1, s.len() as int) =~= s);
    } else {
        let rest = s.subrange(1, s.len() as int);
        lemma_upsert_noop(rest, name, tree);
        assert(seq![s[0]] + rest =~= s);
    }
}

/// A walk leaves no destination behind only where none existed: it may
/// create or rewrite a destination entry but never removes one.
proof fn lemma_sync_dest_none(
    source: Tree,
    sp: Seq<Seq<char>>,
    dname: Seq<char>,
    overwrite: bool,
    ex: Seq<Seq<Seq<char>>>,
    dest: Option<Tree>,
)
    ensures
        sync_model(source, sp, dname, overwrite, ex, dest).dest is None ==> dest is None,
{
}

/// A children walk touches only its children's names: any other name keeps
/// its lookup in the destination child list.
proof fn lemma_scm_other_names(
    children: Seq<TreeEntry>,
    sp: Seq<Seq<char>>,
    overwrite: bool,
    ex: Seq<Seq<Seq<char>>>,
    acc: Seq<TreeEntry>,
    m: Seq<char>,
)
    requires
        forall|j: int| 0 <= j < children.len() ==> children[j].name != m,
    ensures
        lookup(sync_children_model(children, sp, overwrite, ex, acc).entries, m) == lookup(acc, m),
    decreases children,
{
    if children.len() > 0 {
        let c = children[0];
        let rest = children.subrange(1, children.len() as int);
        let cp = sync_model(c.tree, sp.push(c.name), c.name, overwrite, ex, lookup(acc, c.name));
        let acc1 = match cp.dest {
            Some(t) => upsert(acc, c.name, t),
            None => acc,
        };
        match cp.dest {
            Some(t) => {
                lemma_lookup_upsert_other(acc, c.name, t, m);
            },
            None => {},
        }
        match cp.error {
            Some(_) => {},
            None => {
                assert forall|j: int| 0 <= j < rest.len() implies rest[j].name != m by {
                    assert(rest[j] == children[j + 1]);
                }
                lemma_scm_other_names(rest, sp, overwrite, ex, acc1, m);
            },
        }
    }
}

/// The names of a child list's tail are still pairwise distinct.
proof fn lemma_distinct_names_rest(children: Seq<TreeEntry>)
    requires
        distinct_names(children),
        children.len() > 0,
    ensures
        distinct_names(children.subrange(1, children.len() as int)),
        forall|j: int| 0 <= j < children.len() - 1 ==> children.subrange(
            1,
            children.len() as int,
        )[j].name != children[0].name,
{
    let rest = children.subrange(1, children.len() as int);
    assert forall|a: int, b: int| 0 <= a < b < rest.len() implies rest[a].name != rest[b].name by {
        assert(rest[a] == children[a + 1]);
        assert(rest[b] == children[b + 1]);
    }
    assert forall|j: int| 0 <= j < rest.len() implies rest[j].name != children[0].name by {
        assert(rest[j] == children[j + 1]);
    }
}

/// Running the copy engine twice with overwrite off against the same source
/// and destination changes nothing the second time: the destination after
/// the second run equals the destination after the first, the second run
/// performs zero byte copies, and it stops at exactly the failure the first
/// one stopped at, if any.
pub proof fn lemma_no_overwrite_idempotent(
    source: Tree,
    sp: Seq<Seq<char>>,
    dname: Seq<char>,
    ex: Seq<Seq<Seq<char>>>,
    dest: Option<Tree>,
)
    requires
        tree_wf(source),
    ensures
        ({
            let p1 = sync_model(source, sp, dname, false, ex, dest);
            let p2 = sync_model(source, sp, dname, false, ex, p1.dest);
            &&& p2.dest == p1.dest
            &&& plan_copies(p2.steps) == 0
            &&& p2.error == p1.error
        }),
    decreases source,
{
    let p1 = sync_model(source, sp, dname, false, ex, dest);
    if excluded(sp, ex) {
        lemma_plan_copies_single(PlanStep { path: sp, decision: CopyDecision::Excluded });
    } else {
        match source {
            Tree::File { len, mtime } => {
                lemma_plan_copies_single(
                    PlanStep { path: sp, decision: CopyDecision::FileSkipNoOverwrite },
                );
            },
            Tree::Dir { entries } => {
                match dest {
                    Some(Tree::File { .. }) => {
                        assert(plan_copies(Seq::<PlanStep>::empty()) == 0);
                    },
                    _ => {
                        let acc0 = match dest {
                            Some(Tree::Dir { entries: de }) => de,
                            _ => Seq::<TreeEntry>::empty(),
                        };
                        let sub1 = sync_children_model(entries, sp, false, ex, acc0);
                        lemma_children_no_overwrite_idempotent(entries, sp, ex, acc0);
                        let sub2 = sync_children_model(entries, sp, false, ex, sub1.entries);
                        let dc = PlanStep { path: sp, decision: CopyDecision::DirectoryCreate };
                        lemma_plan_copies_concat(seq![dc], sub2.steps);
                        lemma_plan_copies_single(dc);
                    },
                }
            },
        }
    }
}

/// The children walk behind `lemma_no_overwrite_idempotent`.
proof fn lemma_children_no_overwrite_idempotent(
    children: Seq<TreeEntry>,
    sp: Seq<Seq<char>>,
    ex: Seq<Seq<Seq<char>>>,
    acc: Seq<TreeEntry>,
)
    requires
        distinct_names(children),
        entries_wf(children),
    ensures
        ({
            let q1 = sync_children_model(children, sp, false, ex, acc);
            let q2 = sync_children_model(children, sp, false, ex, q1.entries);
            &&& q2.entries == q1.entries
            &&& plan_copies(q2.steps) == 0
            &&& q2.error == q1.error
        }),
    decreases children,
{
    let q1 = sync_children_model(children, sp, false, ex, acc);
    let q2 = sync_children_model(children, sp, false, ex, q1.entries);
    if children.len() == 0 {
        assert(plan_copies(Seq::<PlanStep>::empty()) == 0);
    } else {
        let c = children[0];
        let n = c.name;
        let rest = children.subrange(1, children.len() as int);
        let cd1 = lookup(acc, n);
        let cp1 = sync_model(c.tree, sp.push(n), n, false, ex, cd1);
        lemma_no_overwrite_idempotent(c.tree, sp.push(n), n, ex, cd1);
        let acc1 = match cp1.dest {
            Some(t) => upsert(acc, n, t),
            None => acc,
        };
        match cp1.dest {
            Some(t) => {
                lemma_lookup_upsert_same(acc, n, t);
            },
            None => {
                lemma_sync_dest_none(c.tree, sp.push(n), n, false, ex, cd1);
            },
        }
        assert(lookup(acc1, n) == cp1.dest);
        let cp2 = sync_model(c.tree, sp.push(n), n, false, ex, cp1.dest);
        lemma_distinct_names_rest(children);
        match cp1.error {
            Some(_) => {
                match cp2.dest {
                    Some(t2) => {
                        lemma_upsert_noop(acc1, n, t2);
                    },
                    None => {},
                }
            },
            None => {
                let r1 = sync_children_model(rest, sp, false, ex, acc1);
                lemma_scm_other_names(rest, sp, false, ex, acc1, n);
                assert(lookup(q1.entries, n) == lookup(acc1, n));
                match cp2.dest {
                    Some(t2) => {
                        lemma_upsert_noop(q1.entries, n, t2);
                    },
                    None => {},
                }
                lemma_children_no_overwrite_idempotent(rest, sp, ex, acc1);
                let r2 = sync_children_model(rest, sp, false, ex, r1.entries);
                lemma_plan_copies_concat(cp2.steps, r2.steps);
            },
        }
    }
}

/// After a run with overwrite on has fully succeeded, running it again with
/// overwrite on copies nothing: every file's byte length, modification
/// stamp, and final name already match, so every file is skipped as
/// unchanged, the run succeeds again, and the destination is left exactly
/// as the first run left it. At the root, a lone source file must keep its
/// name at the destination for the staleness check to recognize it.
pub proof fn lemma_overwrite_stable(
    source: Tree,
    sp: Seq<Seq<char>>,
    dname: Seq<char>,
    ex: Seq<Seq<Seq<char>>>,
    dest: Option<Tree>,
)
    requires
        tree_wf(source),
        sync_model(source, sp, dname, true, ex, dest).error is None,
        source is File ==> sp.last() == dname,
    ensures
        ({
            let p1 = sync_model(source, sp, dname, true, ex, dest);
            let p2 = sync_model(source, sp, dname, true, ex, p1.dest);
            &&& p2.dest == p1.dest
            &&& plan_copies(p2.steps) == 0
            &&& p2.error is None
        }),
    decreases source,
{
    let p1 = sync_model(source, sp, dname, true, ex, dest);
    if excluded(sp, ex) {
        lemma_plan_copies_single(PlanStep { path: sp, decision: CopyDecision::Excluded });
    } else {
        match source {
            Tree::File { len, mtime } => {
                lemma_plan_copies_single(
                    PlanStep { path: sp, decision: CopyDecision::FileSkipUnchanged },
                );
            },
            Tree::Dir { entries } => {
                match dest {
                    Some(Tree::File { .. }) => {},
                    _ => {
                        let acc0 = match dest {
                            Some(Tree::Dir { entries: de }) => de,
                            _ => Seq::<TreeEntry>::empty(),
                        };
                        let sub1 = sync_children_model(entries, sp, true, ex, acc0);
                        lemma_children_overwrite_stable(entries, sp, ex, acc0, sub1.entries);
                        let sub2 = sync_children_model(entries, sp, true, ex, sub1.entries);
                        let dc = PlanStep { path: sp, decision: CopyDecision::DirectoryCreate };
                        lemma_plan_copies_concat(seq![dc], sub2.steps);
                        lemma_plan_copies_single(dc);
                    },
                }
            },
        }
    }
}

/// Where a path is not pruned, a walk always leaves something standing at
/// the destination: the mirrored directory, the copied or kept file, or, on
/// a conflict, the conflicting entry itself.
proof fn lemma_sync_dest_some(
    source: Tree,
    sp: Seq<Seq<char>>,
    dname: Seq<char>,
    overwrite: bool,
    ex: Seq<Seq<Seq<char>>>,
    dest: Option<Tree>,
)
    requires
        !excluded(sp, ex),
    ensures
        sync_model(source, sp, dname, overwrite, ex, dest).dest is Some,
{
}

/// The subtree standing in `t` at the relative component path `rel`.
pub open spec fn subtree_at(t: Tree, rel: Seq<Seq<char>>) -> Option<Tree>
    decreases rel.len(),
{
    if rel.len() == 0 {
        Some(t)
    } else {
        match t {
            Tree::Dir { entries } => match lookup(entries, rel[0]) {
                Some(c) => subtree_at(c, rel.subrange(1, rel.len() as int)),
                None => None,
            },
            Tree::File { .. } => None,
        }
    }
}

/// `t` with the subtree at the relative component path `rel` replaced by
/// `nt`; `t` itself where `rel` names nothing.
pub open spec fn replace_at(t: Tree, rel: Seq<Seq<char>>, nt: Tree) -> Tree
    decreases rel.len(),
{
    if rel.len() == 0 {
        nt
    } else {
        match t {
            Tree::Dir { entries } => match lookup(entries, rel[0]) {
                Some(c) => Tree::Dir {
                    entries: upsert(
                        entries,
                        rel[0],
                        replace_at(c, rel.subrange(1, rel.len() as int), nt),
                    ),
                },
                None => t,
            },
            Tree::File { .. } => t,
        }
    }
}

/// Change detection across a whole tree: after a run with overwrite on has
/// fully succeeded, changing exactly one source file's byte length or
/// modification stamp and running again with overwrite on copies exactly
/// that one file — one byte copy in the whole run — succeeds, and leaves
/// the destination equal to the first run's result with just that file's
/// entry replaced. `rel` is the changed file's path below the walk's root;
/// no entry on that path may be excluded, or the file would never be
/// visited at all.
pub proof fn lemma_single_change_single_copy(
    source: Tree,
    rel: Seq<Seq<char>>,
    len2: u64,
    mtime2: u64,
    sp: Seq<Seq<char>>,
    dname: Seq<char>,
    ex: Seq<Seq<Seq<char>>>,
    dest: Option<Tree>,
)
    requires
        tree_wf(source),
        sync_model(source, sp, dname, true, ex, dest).error is None,
        source is File ==> sp.last() == dname,
        ({
            let st = subtree_at(source, rel);
            &&& st is Some
            &&& st->Some_0 is File
            &&& (st->Some_0->File_len != len2 || st->Some_0->File_mtime != mtime2)
        }),
        forall|i: int| 0 <= i <= rel.len() ==> !excluded(sp + rel.subrange(0, i), ex),
    ensures
        ({
            let p1 = sync_model(source, sp, dname, true, ex, dest);
            let f2 = Tree::File { len: len2, mtime: mtime2 };
            let p2 = sync_model(replace_at(source, rel, f2), sp, dname, true, ex, p1.dest);
            &&& p1.dest is Some
            &&& p2.dest == Some(replace_at(p1.dest->Some_0, rel, f2))
            &&& plan_copies(p2.steps) == 1
            &&& p2.error is None
        }),
    decreases source,
{
    let p1 = sync_model(source, sp, dname, true, ex, dest);
    let f2 = Tree::File { len: len2, mtime: mtime2 };
    let s2 = replace_at(source, rel, f2);
    assert(sp + rel.subrange(0, 0) =~= sp);
    assert(!excluded(sp, ex));
    lemma_sync_dest_some(source, sp, dname, true, ex, dest);
    if rel.len() == 0 {
        lemma_plan_copies_single(PlanStep { path: sp, decision: CopyDecision::FileCopy });
    } else {
        let entries = source->Dir_entries;
        let ct = lookup(entries, rel[0])->Some_0;
        let rel1 = rel.subrange(1, rel.len() as int);
        let acc0 = match dest {
            Some(Tree::Dir { entries: de }) => de,
            _ => Seq::<TreeEntry>::empty(),
        };
        let sub1 = sync_children_model(entries, sp, true, ex, acc0);
        assert forall|i: int| 1 <= i <= rel.len() implies !excluded(
            sp + rel.subrange(0, i),
            ex,
        ) by {}
        lemma_children_single_change(entries, rel, len2, mtime2, sp, ex, acc0);
        let nsub = replace_at(ct, rel1, f2);
        let entries2 = upsert(entries, rel[0], nsub);
        let sub2 = sync_children_model(entries2, sp, true, ex, sub1.entries);
        let dc = PlanStep { path: sp, decision: CopyDecision::DirectoryCreate };
        lemma_plan_copies_concat(seq![dc], sub2.steps);
        lemma_plan_copies_single(dc);
        assert(s2 == (Tree::Dir { entries: entries2 }));
        assert(p1.dest == Some(Tree::Dir { entries: sub1.entries }));
        assert(replace_at(Tree::Dir { entries: sub1.entries }, rel, f2) == (Tree::Dir {
            entries: upsert(
                sub1.entries,
                rel[0],
                replace_at(lookup(sub1.entries, rel[0])->Some_0, rel1, f2),
            ),
        }));
    }
}

/// The children walk behind `lemma_single_change_single_copy`: exactly one
/// child subtree holds the changed file, every other child is stable.
proof fn lemma_children_single_change(
    children: Seq<TreeEntry>,
    rel: Seq<Seq<char>>,
    len2: u64,
    mtime2: u64,
    sp: Seq<Seq<char>>,
    ex: Seq<Seq<Seq<char>>>,
    acc: Seq<TreeEntry>,
)
    requires
        distinct_names(children),
        entries_wf(children),
        sync_children_model(children, sp, true, ex, acc).error is None,
        rel.len() >= 1,
        lookup(children, rel[0]) is Some,
        ({
            let st = subtree_at(
                lookup(children, rel[0])->Some_0,
                rel.subrange(1, rel.len() as int),
            );
            &&& st is Some
            &&& st->Some_0 is File
            &&& (st->Some_0->File_len != len2 || st->Some_0->File_mtime != mtime2)
        }),
        forall|i: int| 1 <= i <= rel.len() ==> !excluded(sp + rel.subrange(0, i), ex),
    ensures
        ({
            let q1 = sync_children_model(children, sp, true, ex, acc);
            let f2 = Tree::File { len: len2, mtime: mtime2 };
            let rel1 = rel.subrange(1, rel.len() as int);
            let nsub = replace_at(lookup(children, rel[0])->Some_0, rel1, f2);
            let children2 = upsert(children, rel[0], nsub);
            let q2 = sync_children_model(children2, sp, true, ex, q1.entries);
            &&& lookup(q1.entries, rel[0]) is Some
            &&& q2.entries == upsert(
                q1.entries,
                rel[0],
                replace_at(lookup(q1.entries, rel[0])->Some_0, rel1, f2),
            )
            &&& plan_copies(q2.steps) == 1
            &&& q2.error is None
        }),
    decreases children,
{
    let q1 = sync_children_model(children, sp, true, ex, acc);
    let f2 = Tree::File { len: len2, mtime: mtime2 };
    let rel1 = rel.subrange(1, rel.len() as int);
    let nsub = replace_at(lookup(children, rel[0])->Some_0, rel1, f2);
    let children2 = upsert(children, rel[0], nsub);
    let q2 = sync_children_model(children2, sp, true, ex, q1.entries);
    let c = children[0];
    let n = c.name;
    let rest = children.subrange(1, children.len() as int);
    let cd1 = lookup(acc, n);
    let cp1 = sync_model(c.tree, sp.push(n), n, true, ex, cd1);
    assert(cp1.error is None);
    let acc1 = match cp1.dest {
        Some(t) => upsert(acc, n, t),
        None => acc,
    };
    match cp1.dest {
        Some(t) => {
            lemma_lookup_upsert_same(acc, n, t);
        },
        None => {
            lemma_sync_dest_none(c.tree, sp.push(n), n, true, ex, cd1);
        },
    }
    assert(lookup(acc1, n) == cp1.dest);
    lemma_distinct_names_rest(children);
    let r1 = sync_children_model(rest, sp, true, ex, acc1);
    assert(q1.entries == r1.entries);
    lemma_scm_other_names(rest, sp, true, ex, acc1, n);
    assert(lookup(q1.entries, n) == lookup(acc1, n));
    if n == rel[0] {
        // the changed file lives below the head child
        assert(sp + rel.subrange(0, 1) =~= sp.push(n));
        assert(!excluded(sp.push(n), ex));
        lemma_sync_dest_some(c.tree, sp.push(n), n, true, ex, cd1);
        let dt1c = cp1.dest->Some_0;
        assert forall|i: int| 0 <= i <= rel1.len() implies !excluded(
            sp.push(n) + rel1.subrange(0, i),
            ex,
        ) by {
            assert(sp.push(n) + rel1.subrange(0, i) =~= sp + rel.subrange(0, i + 1));
        }
        lemma_single_change_single_copy(c.tree, rel1, len2, mtime2, sp.push(n), n, ex, cd1);
        let nd2 = replace_at(dt1c, rel1, f2);
        let cp2 = sync_model(nsub, sp.push(n), n, true, ex, cp1.dest);
        assert(cp2.dest == Some(nd2));
        // walking the unchanged siblings from the updated list leaves it alone
        let acc2head = upsert(q1.entries, n, nd2);
        assert(children2 =~= seq![TreeEntry { name: n, tree: nsub }] + rest);
        assert(children2[0] == (TreeEntry { name: n, tree: nsub }));
        assert(children2.subrange(1, children2.len() as int) =~= rest);
        lemma_lookup_upsert_same(q1.entries, n, nd2);
        assert forall|j: int| 0 <= j < rest.len() implies lookup(
            acc2head,
            #[trigger] rest[j].name,
        ) == lookup(sync_children_model(rest, sp, true, ex, acc1).entries, rest[j].name) by {
            assert(rest[j] == children[j + 1]);
            lemma_lookup_upsert_other(q1.entries, n, nd2, rest[j].name);
        }
        lemma_children_overwrite_stable(rest, sp, ex, acc1, acc2head);
        let r2 = sync_children_model(rest, sp, true, ex, acc2head);
        lemma_plan_copies_concat(cp2.steps, r2.steps);
    } else {
        // the changed file lives below a later sibling; the head is stable
        assert(lookup(rest, rel[0]) == lookup(children, rel[0]));
        assert(sp.push(n).last() == n);
        lemma_overwrite_stable(c.tree, sp.push(n), n, ex, cd1);
        let cp2 = sync_model(c.tree, sp.push(n), n, true, ex, cp1.dest);
        match cp2.dest {
            Some(t2) => {
                lemma_upsert_noop(q1.entries, n, t2);
            },
            None => {},
        }
        assert(children2 =~= seq![c] + upsert(rest, rel[0], nsub));
        assert(children2[0] == c);
        assert(children2.subrange(1, children2.len() as int) =~= upsert(rest, rel[0], nsub));
        lemma_children_single_change(rest, rel, len2, mtime2, sp, ex, acc1);
        let rest2 = upsert(rest, rel[0], nsub);
        let r2 = sync_children_model(rest2, sp, true, ex, r1.entries);
        lemma_plan_copies_concat(cp2.steps, r2.steps);
    }
}

/// Change detection at one file: under overwrite, a destination file is
/// recopied — exactly one byte copy — precisely when its byte length, its
/// modification stamp, or its final name disagrees with the source, and is
/// left untouched, with no copy, when all three agree.
pub proof fn lemma_change_detected(
    len: u64,
    mtime: u64,
    sp: Seq<Seq<char>>,
    dname: Seq<char>,
    dlen: u64,
    dmtime: u64,
)
    ensures
        ({
            let p = sync_file_model(
                len,
                mtime,
                sp,
                dname,
                true,
                Some(Tree::File { len: dlen, mtime: dmtime }),
            );
            &&& (dlen != len || dmtime != mtime || sp.last() != dname) ==> plan_copies(p.steps)
                == 1 && p.dest == Some(Tree::File { len, mtime })
            &&& (dlen == len && dmtime == mtime && sp.last() == dname) ==> plan_copies(p.steps)
                == 0 && p.dest == Some(Tree::File { len: dlen, mtime: dmtime })
        }),
{
    lemma_plan_copies_single(PlanStep { path: sp, decision: CopyDecision::FileCopy });
    lemma_plan_copies_single(PlanStep { path: sp, decision: CopyDecision::FileSkipUnchanged });
}

/// The children walk behind `lemma_overwrite_stable`, generalized: the
/// second walk may start from any destination child list that agrees with
/// the first walk's result on every child's name. Every child then finds
/// its own entry already matching, copies nothing, and stores it back
/// unchanged, so the second walk returns its starting list as it is.
proof fn lemma_children_overwrite_stable(
    children: Seq<TreeEntry>,
    sp: Seq<Seq<char>>,
    ex: Seq<Seq<Seq<char>>>,
    acc: Seq<TreeEntry>,
    acc2: Seq<TreeEntry>,
)
    requires
        distinct_names(children),
        entries_wf(children),
        sync_children_model(children, sp, true, ex, acc).error is None,
        forall|j: int| 0 <= j < children.len() ==> lookup(acc2, #[trigger] children[j].name)
            == lookup(
            sync_children_model(children, sp, true, ex, acc).entries,
            children[j].name,
        ),
    ensures
        ({
            let q2 = sync_children_model(children, sp, true, ex, acc2);
            &&& q2.entries == acc2
            &&& plan_copies(q2.steps) == 0
            &&& q2.error is None
        }),
    decreases children,
{
    let q1 = sync_children_model(children, sp, true, ex, acc);
    let q2 = sync_children_model(children, sp, true, ex, acc2);
    if children.len() == 0 {
        assert(plan_copies(Seq::<PlanStep>::empty()) == 0);
    } else {
        let c = children[0];
        let n = c.name;
        let rest = children.subrange(1, children.len() as int);
        let cd1 = lookup(acc, n);
        let cp1 = sync_model(c.tree, sp.push(n), n, true, ex, cd1);
        assert(cp1.error is None);
        assert(sp.push(n).last() == n);
        lemma_overwrite_stable(c.tree, sp.push(n), n, ex, cd1);
        let acc1 = match cp1.dest {
            Some(t) => upsert(acc, n, t),
            None => acc,
        };
        match cp1.dest {
            Some(t) => {
                lemma_lookup_upsert_same(acc, n, t);
            },
            None => {
                lemma_sync_dest_none(c.tree, sp.push(n), n, true, ex, cd1);
            },
        }
        assert(lookup(acc1, n) == cp1.dest);
        lemma_distinct_names_rest(children);
        let r1 = sync_children_model(rest, sp, true, ex, acc1);
        assert(q1.entries == r1.entries);
        lemma_scm_other_names(rest, sp, true, ex, acc1, n);
        assert(lookup(q1.entries, n) == lookup(acc1, n));
        // the second walk's head sees exactly what the first walk left
        assert(lookup(acc2, n) == cp1.dest);
        let cp2 = sync_model(c.tree, sp.push(n), n, true, ex, cp1.dest);
        match cp2.dest {
            Some(t2) => {
                lemma_upsert_noop(acc2, n, t2);
            },
            None => {},
        }
        assert forall|j: int| 0 <= j < rest.len() implies lookup(acc2, #[trigger] rest[j].name)
            == lookup(sync_children_model(rest, sp, true, ex, acc1).entries, rest[j].name) by {
            assert(rest[j] == children[j + 1]);
        }
        lemma_children_overwrite_stable(rest, sp, ex, acc1, acc2);
        let r2 = sync_children_model(rest, sp, true, ex, acc2);
        lemma_plan_copies_concat(cp2.steps, r2.steps);
    }
}

} // verus!

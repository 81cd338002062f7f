//! The directory-skeleton variant of the engine: replicates a source tree's
//! directory structure below a destination without inspecting or copying any
//! file, with no overwrite policy and no progress ticks.

use vstd::prelude::*;

use crate::tree::{
    entries_view, entry_view, node_count, tree_view, DirEntry, FsTree, Tree, TreeEntry,
};
use crate::utils::{
    actions_view, clone_path, dest_view, err_view, find_entry, lemma_lookup_found,
    lemma_lookup_none, lemma_upsert_absent, lemma_upsert_found, lookup, outcome_view, resume,
    upsert, ChildrenPlan, CopyDecision, ErrView, PlanStep, SyncAction, SyncError, SyncOutcome,
    SyncPlan,
};

verus! {

/// What a skeleton walk finds at its destination: nothing, an entry, or a
/// spot below an ancestor that exists as a file, where nothing can be
/// created because that ancestor stands in the way.
pub enum DestSlot {
    Absent,
    Present(Tree),
    Blocked,
}

/// The slot a destination snapshot and a blocked flag describe.
pub open spec fn slot_of(d: Option<Tree>, blocked: bool) -> DestSlot {
    if blocked {
        DestSlot::Blocked
    } else {
        match d {
            None => DestSlot::Absent,
            Some(t) => DestSlot::Present(t),
        }
    }
}

/// The subtree a slot holds, if any.
pub open spec fn slot_tree(s: DestSlot) -> Option<Tree> {
    match s {
        DestSlot::Present(t) => Some(t),
        _ => None,
    }
}

/// Ghost model of the skeleton walk for one source entry. Files are never
/// inspected or touched. For a directory: an absent destination is created
/// (one plan step); an existing directory is kept as it is, without a step;
/// an existing file is left standing — creation is skipped because the path
/// exists — and the children then walk below a blocked parent, where the
/// first directory child aborts the walk because nothing can be created
/// under a file. A blocked directory itself aborts immediately.
pub open spec fn skeleton_model(source: Tree, sp: Seq<Seq<char>>, slot: DestSlot) -> SyncPlan
    decreases source,
{
    match source {
        Tree::File { .. } => SyncPlan { dest: slot_tree(slot), steps: Seq::empty(), error: None },
        Tree::Dir { entries } => match slot {
            DestSlot::Blocked => SyncPlan {
                dest: None,
                steps: Seq::empty(),
                error: Some(ErrView::Traversal { path: sp }),
            },
            DestSlot::Absent => {
                let sub = skeleton_children_model(entries, sp, Seq::empty(), false);
                SyncPlan {
                    dest: Some(Tree::Dir { entries: sub.entries }),
                    steps: seq![PlanStep { path: sp, decision: CopyDecision::DirectoryCreate }]
                        + sub.steps,
                    error: sub.error,
                }
            },
            DestSlot::Present(d) => match d {
                Tree::Dir { entries: de } => {
                    let sub = skeleton_children_model(entries, sp, de, false);
                    SyncPlan {
                        dest: Some(Tree::Dir { entries: sub.entries }),
                        steps: sub.steps,
                        error: sub.error,
                    }
                },
                Tree::File { .. } => {
                    let sub = skeleton_children_model(entries, sp, Seq::empty(), true);
                    SyncPlan { dest: Some(d), steps: sub.steps, error: sub.error }
                },
            },
        },
    }
}

/// Walks a directory's children for the skeleton variant, in listing order,
/// threading the destination child list through; a child's failure aborts
/// the walk as in the copy engine.
pub open spec fn skeleton_children_model(
    children: Seq<TreeEntry>,
    sp: Seq<Seq<char>>,
    acc: Seq<TreeEntry>,
    blocked: bool,
) -> ChildrenPlan
    decreases children,
{
    if children.len() == 0 {
        ChildrenPlan { entries: acc, steps: Seq::empty(), error: None }
    } else {
        let c = children[0];
        let slot = if blocked {
            DestSlot::Blocked
        } else {
            slot_of(lookup(acc, c.name), false)
        };
        let cp = skeleton_model(c.tree, sp.push(c.name), slot);
        let acc1 = match cp.dest {
            Some(t) => upsert(acc, c.name, t),
            None => acc,
        };
        match cp.error {
            Some(e) => ChildrenPlan { entries: acc1, steps: cp.steps, error: Some(e) },
            None => {
                let rest = skeleton_children_model(
                    children.subrange(1, children.len() as int),
                    sp,
                    acc1,
                    blocked,
                );
                ChildrenPlan {
                    entries: rest.entries,
                    steps: cp.steps + rest.steps,
                    error: rest.error,
                }
            },
        }
    }
}

/// The skeleton variant has no staleness policy and drives no progress
/// indicator: its whole plan consists of directory creations, so it never
/// emits a progress tick and never copies a byte.
pub proof fn lemma_skeleton_never_ticks(source: Tree, sp: Seq<Seq<char>>, slot: DestSlot)
    ensures
        crate::utils::plan_ticks(skeleton_model(source, sp, slot).steps) == 0,
        crate::utils::plan_copies(skeleton_model(source, sp, slot).steps) == 0,
    decreases source,
{
    let p = skeleton_model(source, sp, slot);
    assert(crate::utils::plan_ticks(Seq::<PlanStep>::empty()) == 0);
    assert(crate::utils::plan_copies(Seq::<PlanStep>::empty()) == 0);
    match source {
        Tree::File { .. } => {},
        Tree::Dir { entries } => match slot {
            DestSlot::Blocked => {},
            DestSlot::Absent => {
                let sub = skeleton_children_model(entries, sp, Seq::empty(), false);
                let dc = PlanStep { path: sp, decision: CopyDecision::DirectoryCreate };
                lemma_skeleton_children_never_tick(entries, sp, Seq::empty(), false);
                crate::utils::lemma_plan_ticks_split(seq![dc] + sub.steps, 1);
                crate::utils::lemma_plan_copies_split(seq![dc] + sub.steps, 1);
                assert((seq![dc] + sub.steps).subrange(0, 1) =~= seq![dc]);
                assert((seq![dc] + sub.steps).subrange(1, (seq![dc] + sub.steps).len() as int)
                    =~= sub.steps);
                assert(seq![dc].subrange(1, 1) =~= Seq::<PlanStep>::empty());
            },
            DestSlot::Present(d) => match d {
                Tree::Dir { entries: de } => {
                    lemma_skeleton_children_never_tick(entries, sp, de, false);
                },
                Tree::File { .. } => {
                    lemma_skeleton_children_never_tick(entries, sp, Seq::empty(), true);
                },
            },
        },
    }
}

/// The children walk behind `lemma_skeleton_never_ticks`.
proof fn lemma_skeleton_children_never_tick(
    children: Seq<TreeEntry>,
    sp: Seq<Seq<char>>,
    acc: Seq<TreeEntry>,
    blocked: bool,
)
    ensures
        crate::utils::plan_ticks(skeleton_children_model(children, sp, acc, blocked).steps) == 0,
        crate::utils::plan_copies(skeleton_children_model(children, sp, acc, blocked).steps) == 0,
    decreases children,
{
    assert(crate::utils::plan_ticks(Seq::<PlanStep>::empty()) == 0);
    assert(crate::utils::plan_copies(Seq::<PlanStep>::empty()) == 0);
    if children.len() > 0 {
        let c = children[0];
        let slot = if blocked {
            DestSlot::Blocked
        } else {
            slot_of(lookup(acc, c.name), false)
        };
        let cp = skeleton_model(c.tree, sp.push(c.name), slot);
        lemma_skeleton_never_ticks(c.tree, sp.push(c.name), slot);
        let acc1 = match cp.dest {
            Some(t) => upsert(acc, c.name, t),
            None => acc,
        };
        match cp.error {
            Some(_) => {},
            None => {
                let rest = children.subrange(1, children.len() as int);
                lemma_skeleton_children_never_tick(rest, sp, acc1, blocked);
                let rp = skeleton_children_model(rest, sp, acc1, blocked);
                crate::utils::lemma_plan_ticks_split(cp.steps + rp.steps, cp.steps.len() as int);
                crate::utils::lemma_plan_copies_split(cp.steps + rp.steps, cp.steps.len() as int);
                assert((cp.steps + rp.steps).subrange(0, cp.steps.len() as int) =~= cp.steps);
                assert((cp.steps + rp.steps).subrange(
                    cp.steps.len() as int,
                    (cp.steps + rp.steps).len() as int,
                ) =~= rp.steps);
            },
        }
    }
}

/// Walks one source entry for the skeleton variant, executably: returns
/// exactly what `skeleton_model` describes for the same inputs. `blocked`
/// says that an ancestor of the destination path exists as a file, so that
/// nothing can be created here; the caller then passes no destination.
pub fn create_folders_recursive(
    source: &FsTree,
    path: &Vec<String>,
    dest: Option<FsTree>,
    blocked: bool,
) -> (r: SyncOutcome)
    requires
        blocked ==> dest is None,
    ensures
        outcome_view(r) == skeleton_model(
            source@,
            path.deep_view(),
            slot_of(dest_view(dest), blocked),
        ),
    decreases node_count(source@),
{
    let ghost spv = path.deep_view();
    let ghost plan = skeleton_model(source@, spv, slot_of(dest_view(dest), blocked));
    match source {
        FsTree::File { .. } => {
            let r = SyncOutcome { dest, actions: Vec::new(), error: None };
            proof {
                assert(outcome_view(r) =~= plan);
            }
            r
        },
        FsTree::Dir { entries } => {
            let ghost cs = entries_view(entries@);
            proof {
                crate::tree::lemma_entries_view(entries@);
                assert(source@ == (Tree::Dir { entries: cs }));
            }
            if blocked {
                let r = SyncOutcome {
                    dest,
                    actions: Vec::new(),
                    error: Some(SyncError::Traversal { path: clone_path(path) }),
                };
                proof {
                    assert(outcome_view(r) =~= plan);
                }
                return r;
            }
            let mut actions: Vec<SyncAction> = Vec::new();
            let mut kept: Option<FsTree> = None;
            let mut child_blocked: bool = false;
            let mut dentries: Vec<DirEntry> = Vec::new();
            match dest {
                None => {
                    actions.push(
                        SyncAction {
                            path: clone_path(path),
                            decision: CopyDecision::DirectoryCreate,
                        },
                    );
                },
                Some(FsTree::Dir { entries: de }) => {
                    dentries = de;
                },
                Some(FsTree::File { len, mtime }) => {
                    kept = Some(FsTree::File { len, mtime });
                    child_blocked = true;
                },
            }
            let ghost acc0 = entries_view(dentries@);
            let ghost sub = skeleton_children_model(cs, spv, acc0, child_blocked);
            let ghost presteps = actions_view(actions@);
            proof {
                if child_blocked || dest_view(dest) is None {
                    assert(acc0 =~= Seq::<TreeEntry>::empty());
                }
                assert(plan.steps == presteps + sub.steps || (presteps.len() == 0 && plan.steps
                    == sub.steps));
                assert(presteps.len() == 0 ==> presteps + sub.steps =~= sub.steps);
                assert(plan.steps =~= presteps + sub.steps);
                assert(plan.error == sub.error);
                assert(plan.dest == (if kept is Some {
                    dest_view(kept)
                } else {
                    Some(Tree::Dir { entries: sub.entries })
                }));
            }
            let mut error: Option<SyncError> = None;
            let mut no_error: bool = true;
            let ghost mut done = Seq::<PlanStep>::empty();
            let mut i: usize = 0;
            proof {
                assert(cs.subrange(0, cs.len() as int) =~= cs);
                assert(done + skeleton_children_model(cs, spv, acc0, child_blocked).steps
                    =~= skeleton_children_model(cs, spv, acc0, child_blocked).steps);
                assert(sub == resume(
                    done,
                    skeleton_children_model(
                        cs.subrange(0, cs.len() as int),
                        spv,
                        entries_view(dentries@),
                        child_blocked,
                    ),
                ));
            }
            while i < entries.len() && no_error
                invariant
                    0 <= i <= entries@.len(),
                    cs == entries_view(entries@),
                    cs.len() == entries@.len(),
                    forall|j: int| 0 <= j < entries@.len() ==> cs[j] == entry_view(entries@[j]),
                    source@ == (Tree::Dir { entries: cs }),
                    spv == path.deep_view(),
                    sub == skeleton_children_model(cs, spv, acc0, child_blocked),
                    actions_view(actions@) == presteps + done,
                    child_blocked ==> dentries@.len() == 0,
                    no_error == (error is None),
                    no_error ==> sub == resume(
                        done,
                        skeleton_children_model(
                            cs.subrange(i as int, cs.len() as int),
                            spv,
                            entries_view(dentries@),
                            child_blocked,
                        ),
                    ),
                    !no_error ==> sub == (ChildrenPlan {
                        entries: entries_view(dentries@),
                        steps: done,
                        error: err_view(error),
                    }),
                decreases entries@.len() - i,
            {
                let child = &entries[i];
                let ghost done0 = done;
                let ghost acc_pre = entries_view(dentries@);
                let ghost suffix = cs.subrange(i as int, cs.len() as int);
                let ghost rest_model = skeleton_children_model(suffix, spv, acc_pre, child_blocked);
                proof {
                    crate::tree::lemma_entries_view(dentries@);
                    assert(suffix[0] == cs[i as int]);
                    assert(suffix.subrange(1, suffix.len() as int) =~= cs.subrange(
                        i + 1,
                        cs.len() as int,
                    ));
                    crate::tree::lemma_node_count_entries_member(cs, i as int);
                }
                let mut cpath = clone_path(path);
                cpath.push(child.name.clone());
                proof {
                    assert(cpath.deep_view() =~= spv.push(cs[i as int].name));
                }
                let idx = find_entry(&dentries, &child.name);
                let cdest: Option<FsTree> = match idx {
                    Some(ix) => Some(dentries.remove(ix).tree),
                    None => None,
                };
                proof {
                    match idx {
                        Some(ix) => {
                            lemma_lookup_found(acc_pre, cs[i as int].name, ix as int);
                        },
                        None => {
                            lemma_lookup_none(acc_pre, cs[i as int].name);
                        },
                    }
                    assert(dest_view(cdest) == lookup(acc_pre, cs[i as int].name));
                    if child_blocked {
                        assert(acc_pre =~= Seq::<TreeEntry>::empty());
                        assert(cdest is None);
                    }
                }
                let ghost cslot = if child_blocked {
                    DestSlot::Blocked
                } else {
                    slot_of(lookup(acc_pre, cs[i as int].name), false)
                };
                let ghost cplan = skeleton_model(cs[i as int].tree, spv.push(cs[i as int].name), cslot);
                let cr = create_folders_recursive(&child.tree, &cpath, cdest, child_blocked);
                proof {
                    assert(slot_of(dest_view(cdest), child_blocked) == cslot);
                    assert(outcome_view(cr) == cplan);
                }
                let SyncOutcome { dest: crdest, actions: mut cracts, error: crerr } = cr;
                let ghost acc1 = match cplan.dest {
                    Some(t) => upsert(acc_pre, cs[i as int].name, t),
                    None => acc_pre,
                };
                match crdest {
                    Some(t) => {
                        let ghost tv = tree_view(t);
                        match idx {
                            Some(ix) => {
                                dentries.insert(
                                    ix,
                                    DirEntry { name: child.name.clone(), tree: t },
                                );
                                proof {
                                    lemma_upsert_found(acc_pre, cs[i as int].name, tv, ix as int);
                                    crate::tree::lemma_entries_view(dentries@);
                                    assert(entries_view(dentries@) =~= acc1);
                                }
                            },
                            None => {
                                dentries.push(DirEntry { name: child.name.clone(), tree: t });
                                proof {
                                    lemma_upsert_absent(acc_pre, cs[i as int].name, tv);
                                    crate::tree::lemma_entries_view(dentries@);
                                    assert(entries_view(dentries@) =~= acc1);
                                }
                            },
                        }
                    },
                    None => {
                        proof {
                            assert(lookup(acc_pre, cs[i as int].name) is None);
                            assert(idx is None);
                            assert(entries_view(dentries@) == acc1);
                        }
                    },
                }
                let ghost acts0 = actions@;
                let ghost cracts0 = cracts@;
                actions.append(&mut cracts);
                proof {
                    done = done + cplan.steps;
                    assert(actions@ == acts0 + cracts0);
                    assert(actions_view(cracts0) == cplan.steps);
                    assert(actions_view(acts0) == presteps + done0);
                    assert(actions_view(acts0).len() == acts0.len());
                    assert(actions_view(cracts0).len() == cracts0.len());
                    assert(acts0.len() == presteps.len() + done0.len());
                    assert(cracts0.len() == cplan.steps.len());
                    assert(actions@.len() == acts0.len() + cracts0.len());
                    assert((presteps + done).len() == actions@.len());
                    assert forall|j: int| 0 <= j < actions@.len() implies actions_view(actions@)[j]
                        == (presteps + done)[j] by {
                        assert(actions_view(actions@)[j] == crate::utils::step_view(actions@[j]));
                        if j < acts0.len() {
                            assert(actions@[j] == acts0[j]);
                            assert(actions_view(acts0)[j] == crate::utils::step_view(acts0[j]));
                            assert(actions_view(acts0)[j] == (presteps + done0)[j]);
                            if j >= presteps.len() {
                                assert((presteps + done0)[j] == done0[j - presteps.len()]);
                                assert(done[j - presteps.len()] == done0[j - presteps.len()]);
                                assert((presteps + done)[j] == done[j - presteps.len()]);
                            }
                        } else {
                            assert(actions@[j] == cracts0[j - acts0.len()]);
                            assert(actions_view(cracts0)[j - acts0.len()] == crate::utils::step_view(
                                cracts0[j - acts0.len()],
                            ));
                            assert(actions_view(cracts0)[j - acts0.len()] == cplan.steps[j
                                - acts0.len()]);
                            assert(done[j - presteps.len()] == cplan.steps[j - presteps.len()
                                - done0.len()]);
                            assert((presteps + done)[j] == done[j - presteps.len()]);
                        }
                    }
                    assert(actions_view(actions@) =~= presteps + done);
                }
                match crerr {
                    Some(e) => {
                        error = Some(e);
                        no_error = false;
                    },
                    None => {},
                }
                i = i + 1;
                proof {
                    assert(err_view(error) == cplan.error);
                    if cplan.error is Some {
                        assert(rest_model == (ChildrenPlan {
                            entries: acc1,
                            steps: cplan.steps,
                            error: cplan.error,
                        }));
                        assert(done0 + cplan.steps == done);
                        assert(sub == (ChildrenPlan {
                            entries: entries_view(dentries@),
                            steps: done,
                            error: err_view(error),
                        }));
                    } else {
                        let rest2 = skeleton_children_model(
                            cs.subrange(i as int, cs.len() as int),
                            spv,
                            acc1,
                            child_blocked,
                        );
                        assert(rest_model == (ChildrenPlan {
                            entries: rest2.entries,
                            steps: cplan.steps + rest2.steps,
                            error: rest2.error,
                        }));
                        assert(done0 + (cplan.steps + rest2.steps) =~= done + rest2.steps);
                        assert(sub == resume(
                            done,
                            skeleton_children_model(
                                cs.subrange(i as int, cs.len() as int),
                                spv,
                                entries_view(dentries@),
                                child_blocked,
                            ),
                        ));
                    }
                }
            }
            proof {
                if no_error {
                    assert(cs.subrange(i as int, cs.len() as int) =~= Seq::<TreeEntry>::empty());
                    assert(done + Seq::<PlanStep>::empty() =~= done);
                }
                assert(sub == (ChildrenPlan {
                    entries: entries_view(dentries@),
                    steps: done,
                    error: err_view(error),
                }));
            }
            let rdest: Option<FsTree> = match kept {
                Some(f) => Some(f),
                None => Some(FsTree::Dir { entries: dentries }),
            };
            let r = SyncOutcome { dest: rdest, actions, error };
            proof {
                assert(outcome_view(r) =~= plan);
            }
            r
        },
    }
}

/// Replicates the source root's directory structure below the destination
/// root: the one-shot "create folders" operation. Fails with `SourceMissing`
/// exactly when the source root does not exist; otherwise returns the
/// skeleton walk's outcome, whose own error reports a conflicting
/// destination entry if the walk hit one.
pub fn execute_create_folders(
    source: Option<&FsTree>,
    source_path: &Vec<String>,
    dest: Option<FsTree>,
) -> (r: Result<SyncOutcome, SyncError>)
    ensures
        r is Ok <==> source is Some,
        source is Some ==> outcome_view(r->Ok_0) == skeleton_model(
            source->Some_0@,
            source_path.deep_view(),
            slot_of(dest_view(dest), false),
        ),
        source is None ==> err_view(Some(r->Err_0)) == Some(
            ErrView::SourceMissing { path: source_path.deep_view() },
        ),
{
    match source {
        None => Err(SyncError::SourceMissing { path: clone_path(source_path) }),
        Some(s) => Ok(create_folders_recursive(s, source_path, dest, false)),
    }
}

} // verus!

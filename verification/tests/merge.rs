use workspace_commit::commit::merge::engine::Merge;
use workspace_commit::commit::merge::model::{Instruction, Phase, Tip};
use workspace_commit::commit::merge::TreeMerge::{Clean, Conflicted};
use workspace_commit::commit::merge::{
    CommitSettings, Failure, MergeError, Outcome, Query, Reply, Step, TreeMerge,
    WorkspaceCommitRelation, WorkspaceStack,
};
use workspace_commit::commit::{Commit, Time, WorkspaceCommit};
use workspace_commit::id::{HashKind, ObjectId, SegmentIndex};
use workspace_commit::refname::RefName;
use std::cell::RefCell;

/// A branch of the fake repository: its reference, its position in the
/// graph, its tip and the tree of the tip.
struct Branch {
    name: &'static str,
    sidx: usize,
    commit: ObjectId,
    tree: ObjectId,
}

/// A fake repository. A tree is twenty files of one byte each, and the
/// common base of all branches is the tree of zeros at position 0.
struct World {
    branches: Vec<Branch>,
    /// Results that `MergeTrees` hands out before it merges for real.
    script: RefCell<Vec<TreeMerge>>,
    asked: RefCell<Vec<String>>,
    written: RefCell<Vec<Commit>>,
}

fn id(byte: u8) -> ObjectId {
    ObjectId { bytes: [byte; 20] }
}

fn tree(files: &[(usize, u8)]) -> ObjectId {
    let mut bytes = [0u8; 20];
    for (file, content) in files {
        bytes[*file] = *content;
    }
    ObjectId { bytes }
}

fn name(full: &str) -> RefName {
    RefName::new(full.as_bytes().to_vec()).expect("a valid reference name")
}

fn base_commit() -> ObjectId {
    id(0xbb)
}

fn written_id() -> ObjectId {
    id(0xcc)
}

fn merge_files(base: &ObjectId, ours: &ObjectId, theirs: &ObjectId) -> TreeMerge {
    let mut merged = [0u8; 20];
    for file in 0..20usize {
        let (b, o, t) = (base.bytes[file], ours.bytes[file], theirs.bytes[file]);
        merged[file] = if o == b {
            t
        } else if t == b || t == o {
            o
        } else {
            return TreeMerge::Conflicted;
        };
    }
    TreeMerge::Clean(ObjectId { bytes: merged })
}

impl World {
    fn new(branches: &[(&'static str, &[(usize, u8)])]) -> World {
        let mut all = Vec::new();
        for (at, (full, files)) in branches.iter().enumerate() {
            all.push(Branch {
                name: full,
                sidx: at + 1,
                commit: id((at + 1) as u8),
                tree: tree(files),
            });
        }
        World {
            branches: all,
            script: RefCell::new(Vec::new()),
            asked: RefCell::new(Vec::new()),
            written: RefCell::new(Vec::new()),
        }
    }

    fn scripted(self, results: Vec<TreeMerge>) -> World {
        *self.script.borrow_mut() = results;
        self
    }

    fn answer(&self, query: Query) -> Result<Reply, String> {
        let reply = match query {
            Query::ResolveRef(wanted) => {
                self.asked.borrow_mut().push("resolve".to_string());
                let found = self
                    .branches
                    .iter()
                    .find(|branch| branch.name.as_bytes() == wanted.as_bytes().as_slice());
                Reply::Resolved(found.map(|branch| (SegmentIndex(branch.sidx), branch.commit)))
            }
            Query::PeelToTree(commit) => {
                self.asked.borrow_mut().push("tree".to_string());
                if commit == base_commit() {
                    Reply::Tree(tree(&[]))
                } else {
                    match self.branches.iter().find(|branch| branch.commit == commit) {
                        Some(branch) => Reply::Tree(branch.tree),
                        None => return Err(format!("no such commit: {commit:?}")),
                    }
                }
            }
            Query::FirstMergeBase { .. } => {
                self.asked.borrow_mut().push("base".to_string());
                Reply::MergeBase(Some(SegmentIndex(0)))
            }
            Query::TipSkipEmpty(_) => {
                self.asked.borrow_mut().push("commit".to_string());
                Reply::Commit(Some(base_commit()))
            }
            Query::MergeTrees { base, ours, theirs } => {
                self.asked.borrow_mut().push("merge".to_string());
                let mut script = self.script.borrow_mut();
                if script.is_empty() {
                    Reply::Merged(merge_files(&base, &ours, &theirs))
                } else {
                    Reply::Merged(script.remove(0))
                }
            }
            Query::TestMerge { base, ours, theirs } => {
                self.asked.borrow_mut().push("test".to_string());
                let mut script = self.script.borrow_mut();
                let result =
                    if script.is_empty() { merge_files(&base, &ours, &theirs) } else { script.remove(0) };
                Reply::Tested { conflicts: result == Conflicted }
            }
            Query::WriteCommit(commit) => {
                self.asked.borrow_mut().push("write".to_string());
                self.written.borrow_mut().push(commit);
                Reply::Written(written_id())
            }
        };
        Ok(reply)
    }

    fn merges_asked(&self) -> usize {
        self.asked.borrow().iter().filter(|kind| kind.as_str() == "merge").count()
    }

    fn tests_asked(&self) -> usize {
        self.asked.borrow().iter().filter(|kind| kind.as_str() == "test").count()
    }
}

fn merged(full: &str) -> WorkspaceStack {
    WorkspaceStack {
        branches: vec![name(full)],
        workspacecommit_relation: WorkspaceCommitRelation::Merged,
    }
}

fn settings() -> CommitSettings {
    CommitSettings {
        object_hash: HashKind::Sha1,
        time: Time { seconds: 946684800, offset: 0 },
        committer_time: None,
    }
}

fn run(
    world: &World,
    stacks: &[&str],
    hero: Option<&str>,
) -> Result<Outcome, Failure<String>> {
    let stacks: Vec<WorkspaceStack> = stacks.iter().map(|full| merged(full)).collect();
    let hero = hero.map(name);
    WorkspaceCommit::from_new_merge_with_metadata(&stacks, hero.as_ref(), settings(), |query| {
        world.answer(query)
    })
}

fn short_names(outcome: &Outcome) -> Vec<String> {
    outcome
        .stacks
        .iter()
        .map(|stack| String::from_utf8(stack.name.clone().expect("named")).expect("text"))
        .collect()
}

fn conflicting_names(outcome: &Outcome) -> Vec<String> {
    outcome
        .conflicting_stacks
        .iter()
        .map(|stack| String::from_utf8(stack.ref_name.as_bytes().clone()).expect("text"))
        .collect()
}

fn missing_names(outcome: &Outcome) -> Vec<String> {
    outcome
        .missing_stacks
        .iter()
        .map(|stack| String::from_utf8(stack.as_bytes().clone()).expect("text"))
        .collect()
}

fn failure(result: Result<Outcome, Failure<String>>) -> MergeError {
    match result {
        Err(Failure::Merge(error)) => error,
        other => panic!("expected the merge to fail, got {other:?}"),
    }
}

#[test]
fn three_stacks_without_conflict_merge_into_one_tree() {
    let world = World::new(&[
        ("refs/heads/A", &[(0, 1)]),
        ("refs/heads/B", &[(1, 2)]),
        ("refs/heads/C", &[(2, 3)]),
    ]);
    let outcome = run(&world, &["refs/heads/A", "refs/heads/B", "refs/heads/C"], None).unwrap();
    assert_eq!(short_names(&outcome), ["A", "B", "C"]);
    assert!(!outcome.has_conflicts());
    assert!(outcome.missing_stacks.is_empty());
    assert_eq!(outcome.workspace_commit_id, written_id());
    let written = world.written.borrow();
    assert_eq!(written.len(), 1);
    assert_eq!(written[0].tree, tree(&[(0, 1), (1, 2), (2, 3)]));
    assert_eq!(written[0].parents, vec![id(1), id(2), id(3)]);
    assert_eq!(world.merges_asked(), 2);
}

#[test]
fn conflicting_middle_stack_is_left_out_for_the_hero() {
    let world = World::new(&[
        ("refs/heads/X", &[(0, 1)]),
        ("refs/heads/Y", &[(0, 2)]),
        ("refs/heads/Z", &[(1, 3)]),
    ]);
    let outcome =
        run(&world, &["refs/heads/X", "refs/heads/Y", "refs/heads/Z"], Some("refs/heads/Z"))
            .unwrap();
    assert_eq!(short_names(&outcome), ["X", "Z"]);
    assert_eq!(conflicting_names(&outcome), ["refs/heads/Y"]);
    assert_eq!(outcome.conflicting_stacks[0].tip, id(2));
    assert!(outcome.has_conflicts());
    let written = world.written.borrow();
    assert_eq!(written[0].tree, tree(&[(0, 1), (1, 3)]));
    assert_eq!(written[0].parents, vec![id(1), id(3)]);
}

#[test]
fn only_the_true_conflict_is_blamed() {
    let world = World::new(&[
        ("refs/heads/G1", &[(0, 1)]),
        ("refs/heads/C", &[(0, 2)]),
        ("refs/heads/G2", &[(1, 3)]),
        ("refs/heads/H", &[(2, 4)]),
    ]);
    let outcome = run(
        &world,
        &["refs/heads/G1", "refs/heads/C", "refs/heads/G2", "refs/heads/H"],
        Some("refs/heads/H"),
    )
    .unwrap();
    assert_eq!(short_names(&outcome), ["G1", "G2", "H"]);
    assert_eq!(conflicting_names(&outcome), ["refs/heads/C"]);
    assert_eq!(world.written.borrow()[0].tree, tree(&[(0, 1), (1, 3), (2, 4)]));
}

#[test]
fn falsely_blamed_stack_returns_after_its_trial() {
    // The hero conflicts with X alone. G2 stands between them and is left
    // out first, then comes back once it has merged with the hero.
    let world = World::new(&[
        ("refs/heads/G1", &[(0, 1)]),
        ("refs/heads/X", &[(3, 7)]),
        ("refs/heads/G2", &[(1, 3)]),
        ("refs/heads/H", &[(3, 9)]),
    ]);
    let outcome = run(
        &world,
        &["refs/heads/G1", "refs/heads/X", "refs/heads/G2", "refs/heads/H"],
        Some("refs/heads/H"),
    )
    .unwrap();
    assert_eq!(short_names(&outcome), ["G1", "G2", "H"]);
    assert_eq!(conflicting_names(&outcome), ["refs/heads/X"]);
    assert_eq!(world.written.borrow()[0].tree, tree(&[(0, 1), (1, 3), (3, 9)]));
    assert_eq!(world.written.borrow()[0].parents, vec![id(1), id(3), id(4)]);
}

#[test]
fn stack_that_conflicts_with_the_hero_stays_out_after_its_trial() {
    // X and Y both conflict with the hero, G does not.
    let world = World::new(&[
        ("refs/heads/G", &[(0, 1)]),
        ("refs/heads/X", &[(3, 7)]),
        ("refs/heads/Y", &[(4, 7)]),
        ("refs/heads/H", &[(3, 9), (4, 9)]),
    ]);
    let outcome = run(
        &world,
        &["refs/heads/G", "refs/heads/X", "refs/heads/Y", "refs/heads/H"],
        Some("refs/heads/H"),
    )
    .unwrap();
    assert_eq!(short_names(&outcome), ["G", "H"]);
    assert_eq!(conflicting_names(&outcome), ["refs/heads/X", "refs/heads/Y"]);
    assert_eq!(world.written.borrow()[0].tree, tree(&[(0, 1), (3, 9), (4, 9)]));
}

#[test]
fn hero_alone_remains_when_everything_conflicts_with_it() {
    let world = World::new(&[
        ("refs/heads/X", &[(0, 1)]),
        ("refs/heads/Y", &[(0, 2)]),
        ("refs/heads/H", &[(0, 3)]),
    ]);
    let outcome =
        run(&world, &["refs/heads/X", "refs/heads/Y", "refs/heads/H"], Some("refs/heads/H"))
            .unwrap();
    assert_eq!(short_names(&outcome), ["H"]);
    assert_eq!(conflicting_names(&outcome), ["refs/heads/X", "refs/heads/Y"]);
    assert_eq!(world.written.borrow()[0].tree, tree(&[(0, 3)]));
    assert_eq!(world.written.borrow()[0].parents, vec![id(3)]);
}

#[test]
fn missing_reference_is_reported_and_blocks_nothing() {
    let world = World::new(&[("refs/heads/A", &[(0, 1)]), ("refs/heads/B", &[(1, 2)])]);
    let outcome =
        run(&world, &["refs/heads/A", "refs/heads/gone", "refs/heads/B"], None).unwrap();
    assert_eq!(short_names(&outcome), ["A", "B"]);
    assert_eq!(missing_names(&outcome), ["refs/heads/gone"]);
    assert!(outcome.conflicting_stacks.is_empty());
    assert!(!outcome.has_conflicts());
    assert_eq!(world.written.borrow()[0].tree, tree(&[(0, 1), (1, 2)]));
}

#[test]
fn nothing_resolvable_is_an_error() {
    let world = World::new(&[("refs/heads/A", &[(0, 1)])]);
    let result = run(&world, &["refs/heads/gone", "refs/heads/lost"], None);
    assert_eq!(failure(result), MergeError::NothingToMerge);
    assert!(world.written.borrow().is_empty());
}

#[test]
fn no_stacks_at_all_is_an_error() {
    let world = World::new(&[]);
    assert_eq!(failure(run(&world, &[], None)), MergeError::NothingToMerge);
    assert!(world.asked.borrow().is_empty());
}

#[test]
fn single_stack_never_merges_trees() {
    let world = World::new(&[("refs/heads/only", &[(5, 5)])]);
    let outcome = run(&world, &["refs/heads/only"], Some("refs/heads/only")).unwrap();
    assert_eq!(short_names(&outcome), ["only"]);
    assert_eq!(world.merges_asked(), 0);
    assert_eq!(world.tests_asked(), 0);
    assert_eq!(*world.asked.borrow(), ["resolve", "tree", "write"]);
    assert_eq!(world.written.borrow()[0].tree, tree(&[(5, 5)]));
    assert_eq!(world.written.borrow()[0].parents, vec![id(1)]);
}

#[test]
fn without_hero_conflicts_are_left_out_and_nobody_is_tried() {
    let world = World::new(&[
        ("refs/heads/X", &[(0, 1)]),
        ("refs/heads/Y", &[(0, 2)]),
        ("refs/heads/Z", &[(0, 3)]),
        ("refs/heads/W", &[(1, 1)]),
    ]);
    let stacks: Vec<WorkspaceStack> =
        ["refs/heads/X", "refs/heads/Y", "refs/heads/Z", "refs/heads/W"]
            .iter()
            .map(|full| merged(full))
            .collect();
    let mut merge = Merge::new(&stacks, None, settings());
    let outcome = loop {
        assert!(!merge.ran_merge_trials);
        for slot in merge.slots.iter().flatten() {
            assert!(matches!(slot.mode, Instruction::Merge | Instruction::Skip));
        }
        match merge.pending() {
            Step::Ask(query) => merge.advance(world.answer(query).unwrap()),
            Step::Done(outcome) => break outcome,
            Step::Failed(error) => panic!("failed: {error:?}"),
        }
    };
    assert_eq!(short_names(&outcome), ["X", "W"]);
    assert_eq!(conflicting_names(&outcome), ["refs/heads/Y", "refs/heads/Z"]);
    // One pass: three merges, none of them a trial.
    assert_eq!(world.merges_asked(), 3);
    assert_eq!(world.tests_asked(), 0);
}

#[test]
fn merging_twice_gives_the_same() {
    let branches: [(&'static str, &[(usize, u8)]); 4] = [
        ("refs/heads/G1", &[(0, 1)]),
        ("refs/heads/X", &[(3, 7)]),
        ("refs/heads/G2", &[(1, 3)]),
        ("refs/heads/H", &[(3, 9)]),
    ];
    let stacks = ["refs/heads/G1", "refs/heads/X", "refs/heads/nope", "refs/heads/G2", "refs/heads/H"];
    let first_world = World::new(&branches);
    let second_world = World::new(&branches);
    let first = run(&first_world, &stacks, Some("refs/heads/H")).unwrap();
    let second = run(&second_world, &stacks, Some("refs/heads/H")).unwrap();
    assert_eq!(short_names(&first), short_names(&second));
    assert_eq!(conflicting_names(&first), conflicting_names(&second));
    assert_eq!(missing_names(&first), missing_names(&second));
    assert_eq!(first.workspace_commit_id, second.workspace_commit_id);
    let (one, other) = (first_world.written.borrow(), second_world.written.borrow());
    assert_eq!(one[0].tree, other[0].tree);
    assert_eq!(one[0].parents, other[0].parents);
    assert_eq!(one[0].message, other[0].message);
    assert_eq!(*first_world.asked.borrow(), *second_world.asked.borrow());
}

#[test]
fn every_input_lands_in_exactly_one_part_of_the_outcome() {
    let world = World::new(&[
        ("refs/heads/G1", &[(0, 1)]),
        ("refs/heads/X", &[(3, 7)]),
        ("refs/heads/G2", &[(1, 3)]),
        ("refs/heads/H", &[(3, 9)]),
    ]);
    let stacks = ["refs/heads/G1", "refs/heads/X", "refs/heads/nope", "refs/heads/G2", "refs/heads/H"];
    let outcome = run(&world, &stacks, Some("refs/heads/H")).unwrap();
    assert!(!outcome.stacks.is_empty());
    assert_eq!(
        outcome.stacks.len() + outcome.conflicting_stacks.len() + outcome.missing_stacks.len(),
        stacks.len()
    );
    let mut all: Vec<String> = short_names(&outcome).iter().map(|s| format!("refs/heads/{s}")).collect();
    all.extend(conflicting_names(&outcome));
    all.extend(missing_names(&outcome));
    all.sort();
    let mut expected: Vec<String> = stacks.iter().map(|s| s.to_string()).collect();
    expected.sort();
    assert_eq!(all, expected);
}

#[test]
fn stacks_outside_the_workspace_and_without_branches_take_no_part() {
    let world = World::new(&[("refs/heads/A", &[(0, 1)]), ("refs/heads/B", &[(0, 2)])]);
    let stacks = vec![
        WorkspaceStack {
            branches: vec![name("refs/heads/B")],
            workspacecommit_relation: WorkspaceCommitRelation::Outside,
        },
        WorkspaceStack {
            branches: vec![],
            workspacecommit_relation: WorkspaceCommitRelation::UnmergedTree,
        },
        WorkspaceStack {
            branches: vec![name("refs/heads/A"), name("refs/heads/B")],
            workspacecommit_relation: WorkspaceCommitRelation::Merged,
        },
    ];
    let outcome = WorkspaceCommit::from_new_merge_with_metadata(&stacks, None, settings(), |query| {
        world.answer(query)
    })
    .unwrap();
    assert_eq!(short_names(&outcome), ["A"]);
    assert!(outcome.conflicting_stacks.is_empty());
    assert!(outcome.missing_stacks.is_empty());
    assert_eq!(*world.asked.borrow(), ["resolve", "tree", "write"]);
}

#[test]
fn unmerged_tree_fails_the_merge_at_once() {
    let world = World::new(&[("refs/heads/A", &[(0, 1)]), ("refs/heads/B", &[(1, 2)])]);
    let stacks = vec![
        merged("refs/heads/A"),
        WorkspaceStack {
            branches: vec![name("refs/heads/B")],
            workspacecommit_relation: WorkspaceCommitRelation::UnmergedTree,
        },
    ];
    let result = WorkspaceCommit::from_new_merge_with_metadata(&stacks, None, settings(), |query| {
        world.answer(query)
    });
    assert_eq!(failure(result), MergeError::UnmergedTree { stack: 1 });
    assert!(world.asked.borrow().is_empty());
}

#[test]
fn collaborator_failure_ends_the_merge() {
    let stacks = vec![merged("refs/heads/A")];
    let result: Result<Outcome, Failure<String>> =
        WorkspaceCommit::from_new_merge_with_metadata(&stacks, None, settings(), |_query| {
            Err("disk on fire".to_string())
        });
    match result {
        Err(Failure::Collaborator(message)) => assert_eq!(message, "disk on fire"),
        other => panic!("unexpected: {other:?}"),
    }
}

/// Drive a merge of the given stacks with replies as the caller gives them.
fn scripted_merge(stacks: &[&str], hero: Option<&str>, world: &World) -> Merge {
    let stacks: Vec<WorkspaceStack> = stacks.iter().map(|full| merged(full)).collect();
    let hero = hero.map(name);
    let mut merge = Merge::new(&stacks, hero.as_ref(), settings());
    while let Step::Ask(query) = merge.pending() {
        merge.advance(world.answer(query).unwrap());
    }
    merge
}

fn four() -> World {
    World::new(&[
        ("refs/heads/A", &[(0, 1)]),
        ("refs/heads/B", &[(1, 1)]),
        ("refs/heads/C", &[(2, 1)]),
        ("refs/heads/H", &[(3, 1)]),
    ])
}

const FOUR: [&str; 4] = ["refs/heads/A", "refs/heads/B", "refs/heads/C", "refs/heads/H"];

#[test]
fn conflict_of_a_candidate_on_trial_is_fatal() {
    // B and C conflict, the hero merges: C goes on trial. Then C conflicts
    // with what is there, before the hero is merged in.
    let world = four().scripted(vec![Conflicted, Conflicted, Clean(tree(&[(0, 1), (3, 1)])), Conflicted]);
    let merge = scripted_merge(&FOUR, Some("refs/heads/H"), &world);
    assert_eq!(merge.phase, Phase::Failed(MergeError::TrialConflict { stack: 2 }));
    assert!(merge.ran_merge_trials);
    assert!(world.written.borrow().is_empty());
}

#[test]
fn trials_never_run_twice() {
    let kept = tree(&[(0, 1), (3, 1)]);
    let world = four().scripted(vec![
        Conflicted,  // B against A
        Conflicted,  // C against A
        Clean(kept), // the hero: B is blamed, C goes on trial
        Clean(kept), // C against A
        Clean(kept), // C with the hero: C is merged
        Conflicted,  // the hero conflicts: C is left out again
        Clean(kept), // the hero merges: C would go on trial once more
    ]);
    let merge = scripted_merge(&FOUR, Some("refs/heads/H"), &world);
    assert_eq!(merge.phase, Phase::Failed(MergeError::TrialsRanTwice));
}

#[test]
fn trial_that_was_never_concluded_is_fatal() {
    let kept = tree(&[(0, 1)]);
    // Two stacks carry the hero's name. The first of them has the stack
    // before it left out, so the one on trial is later taken in untested.
    let world = World::new(&[
        ("refs/heads/B", &[(0, 1)]),
        ("refs/heads/C", &[(1, 1)]),
        ("refs/heads/H", &[(2, 1)]),
    ])
    .scripted(vec![Conflicted, Conflicted, Clean(kept), Clean(kept)]);
    let merge = scripted_merge(
        &["refs/heads/B", "refs/heads/C", "refs/heads/H", "refs/heads/H"],
        Some("refs/heads/H"),
        &world,
    );
    assert_eq!(merge.phase, Phase::Failed(MergeError::UnconcludedTrial));
}

#[test]
fn missing_merge_base_is_fatal() {
    let stacks = vec![merged("refs/heads/A"), merged("refs/heads/B")];
    let mut merge = Merge::new(&stacks, None, settings());
    merge.advance(Reply::Resolved(Some((SegmentIndex(4), id(1)))));
    merge.advance(Reply::Resolved(Some((SegmentIndex(9), id(2)))));
    merge.advance(Reply::Tree(tree(&[(0, 1)])));
    merge.advance(Reply::Tree(tree(&[(1, 1)])));
    assert!(matches!(
        merge.pending(),
        Step::Ask(Query::FirstMergeBase { left: SegmentIndex(4), right: SegmentIndex(9) })
    ));
    merge.advance(Reply::MergeBase(None));
    assert!(matches!(
        merge.pending(),
        Step::Failed(MergeError::NoMergeBase { left: SegmentIndex(4), right: SegmentIndex(9) })
    ));
}

#[test]
fn base_without_commit_is_fatal() {
    let stacks = vec![merged("refs/heads/A"), merged("refs/heads/B")];
    let mut merge = Merge::new(&stacks, None, settings());
    merge.advance(Reply::Resolved(Some((SegmentIndex(4), id(1)))));
    merge.advance(Reply::Resolved(Some((SegmentIndex(9), id(2)))));
    merge.advance(Reply::Tree(tree(&[(0, 1)])));
    merge.advance(Reply::Tree(tree(&[(1, 1)])));
    merge.advance(Reply::MergeBase(Some(SegmentIndex(2))));
    assert!(matches!(merge.pending(), Step::Ask(Query::TipSkipEmpty(SegmentIndex(2)))));
    merge.advance(Reply::Commit(None));
    assert_eq!(
        merge.phase,
        Phase::Failed(MergeError::EmptyBase {
            base: SegmentIndex(2),
            left: SegmentIndex(4),
            right: SegmentIndex(9)
        })
    );
}

#[test]
fn reply_of_another_kind_is_fatal_and_the_end_is_final() {
    let stacks = vec![merged("refs/heads/A")];
    let mut merge = Merge::new(&stacks, None, settings());
    assert!(matches!(merge.pending(), Step::Ask(Query::ResolveRef(_))));
    merge.advance(Reply::Tree(id(1)));
    assert_eq!(merge.phase, Phase::Failed(MergeError::UnexpectedReply));
    merge.advance(Reply::Resolved(None));
    assert_eq!(merge.phase, Phase::Failed(MergeError::UnexpectedReply));
}

#[test]
fn merge_bases_are_sought_from_the_lowest_base_so_far() {
    let stacks = vec![merged("refs/heads/A"), merged("refs/heads/B"), merged("refs/heads/C")];
    let mut merge = Merge::new(&stacks, None, settings());
    merge.advance(Reply::Resolved(Some((SegmentIndex(10), id(1)))));
    merge.advance(Reply::Resolved(Some((SegmentIndex(20), id(2)))));
    merge.advance(Reply::Resolved(Some((SegmentIndex(30), id(3)))));
    merge.advance(Reply::Tree(tree(&[(0, 1)])));
    merge.advance(Reply::Tree(tree(&[(1, 1)])));
    // The first merge: between the two tips.
    assert!(matches!(
        merge.pending(),
        Step::Ask(Query::FirstMergeBase { left: SegmentIndex(10), right: SegmentIndex(20) })
    ));
    merge.advance(Reply::MergeBase(Some(SegmentIndex(5))));
    merge.advance(Reply::Commit(Some(id(0x55))));
    assert!(matches!(merge.pending(), Step::Ask(Query::PeelToTree(commit)) if commit == id(0x55)));
    merge.advance(Reply::Tree(tree(&[])));
    match merge.pending() {
        Step::Ask(Query::MergeTrees { base, ours, theirs }) => {
            assert_eq!(base, tree(&[]));
            assert_eq!(ours, tree(&[(0, 1)]));
            assert_eq!(theirs, tree(&[(1, 1)]));
        }
        other => panic!("unexpected: {other:?}"),
    }
    merge.advance(Reply::Merged(TreeMerge::Clean(tree(&[(0, 1), (1, 1)]))));
    merge.advance(Reply::Tree(tree(&[(2, 1)])));
    // The second merge: between the base of the first and the third tip.
    assert!(matches!(
        merge.pending(),
        Step::Ask(Query::FirstMergeBase { left: SegmentIndex(5), right: SegmentIndex(30) })
    ));
    merge.advance(Reply::MergeBase(Some(SegmentIndex(3))));
    merge.advance(Reply::Commit(Some(id(0x33))));
    merge.advance(Reply::Tree(tree(&[])));
    match merge.pending() {
        Step::Ask(Query::MergeTrees { ours, theirs, .. }) => {
            assert_eq!(ours, tree(&[(0, 1), (1, 1)]));
            assert_eq!(theirs, tree(&[(2, 1)]));
        }
        other => panic!("unexpected: {other:?}"),
    }
}

#[test]
fn trial_merges_the_hero_tree_over_the_base_with_the_hero() {
    let stacks: Vec<WorkspaceStack> = FOUR.iter().map(|full| merged(full)).collect();
    let hero = name("refs/heads/H");
    let mut merge = Merge::new(&stacks, Some(&hero), settings());
    for at in 1..=4usize {
        merge.advance(Reply::Resolved(Some((SegmentIndex(at * 10), id(at as u8)))));
    }
    let world = four().scripted(vec![Conflicted, Conflicted, Clean(tree(&[(0, 1), (3, 1)]))]);
    // The first pass, up to the restart for the trials.
    while !merge.ran_merge_trials {
        match merge.pending() {
            Step::Ask(query) => merge.advance(world.answer(query).unwrap()),
            other => panic!("unexpected: {other:?}"),
        }
    }
    assert_eq!(merge.slots[1].map(|tip| tip.mode), Some(Instruction::CertainConflict));
    assert_eq!(
        merge.slots[2],
        Some(Tip {
            mode: Instruction::MergeTrial {
                hero_sidx: SegmentIndex(40),
                hero_tree_id: tree(&[(3, 1)])
            },
            commit_id: id(3),
            sidx: SegmentIndex(30),
        })
    );
    assert_eq!(merge.phase, Phase::TipTree { idx: 0 });
    merge.advance(Reply::Tree(tree(&[(0, 1)])));
    merge.advance(Reply::Tree(tree(&[(2, 1)])));
    merge.advance(Reply::MergeBase(Some(SegmentIndex(7))));
    merge.advance(Reply::Commit(Some(base_commit())));
    merge.advance(Reply::Tree(tree(&[])));
    merge.advance(Reply::Merged(Clean(tree(&[(0, 1), (2, 1)]))));
    // Now the trial: the base between the base of that merge and the hero.
    assert!(matches!(
        merge.pending(),
        Step::Ask(Query::FirstMergeBase { left: SegmentIndex(7), right: SegmentIndex(40) })
    ));
    merge.advance(Reply::MergeBase(Some(SegmentIndex(6))));
    merge.advance(Reply::Commit(Some(base_commit())));
    merge.advance(Reply::Tree(tree(&[])));
    match merge.pending() {
        Step::Ask(Query::TestMerge { base, ours, theirs }) => {
            assert_eq!(base, tree(&[]));
            assert_eq!(ours, tree(&[(0, 1), (2, 1)]));
            assert_eq!(theirs, tree(&[(3, 1)]));
        }
        other => panic!("unexpected: {other:?}"),
    }
    // The answer to a merge is none to a test.
    let mut confused = Merge {
        names: merge.names.clone(),
        hero: merge.hero.clone(),
        settings: merge.settings,
        slots: merge.slots.clone(),
        ran_merge_trials: merge.ran_merge_trials,
        running: merge.running,
        phase: merge.phase,
    };
    confused.advance(Reply::Merged(Conflicted));
    assert_eq!(confused.phase, Phase::Failed(MergeError::UnexpectedReply));
    merge.advance(Reply::Tested { conflicts: true });
    assert_eq!(merge.slots[2].map(|tip| tip.mode), Some(Instruction::CertainConflict));
    // What the conflicting candidate contributed is dropped.
    assert_eq!(merge.running.merge_tree_id, None);
    assert_eq!(merge.phase, Phase::TipTree { idx: 3 });
}

#[test]
fn committer_time_of_the_repository_replaces_the_time() {
    let world = World::new(&[("refs/heads/A", &[(0, 1)])]);
    let stacks = vec![merged("refs/heads/A")];
    let configured = Time { seconds: 1700000000, offset: 7200 };
    let with_time = CommitSettings { committer_time: Some(configured), ..settings() };
    WorkspaceCommit::from_new_merge_with_metadata(&stacks, None, with_time, |query| {
        world.answer(query)
    })
    .unwrap();
    let written = world.written.borrow();
    assert_eq!(written[0].author.time, configured);
    assert_eq!(written[0].committer.time, configured);
    assert!(WorkspaceCommit::from_id(written_id(), clone_of(&written[0])).is_managed());
}

fn clone_of(commit: &Commit) -> Commit {
    Commit {
        tree: commit.tree,
        parents: commit.parents.clone(),
        author: workspace_commit::commit::commit_signature(commit.author.time),
        committer: workspace_commit::commit::commit_signature(commit.committer.time),
        encoding: commit.encoding.clone(),
        message: commit.message.clone(),
        extra_headers: commit.extra_headers.clone(),
    }
}

#[test]
fn merge_ends_within_its_bound() {
    let world = World::new(&[
        ("refs/heads/G1", &[(0, 1)]),
        ("refs/heads/X", &[(3, 7)]),
        ("refs/heads/G2", &[(1, 3)]),
        ("refs/heads/H", &[(3, 9)]),
    ]);
    let stacks = ["refs/heads/G1", "refs/heads/X", "refs/heads/G2", "refs/heads/H"];
    run(&world, &stacks, Some("refs/heads/H")).unwrap();
    let n: usize = stacks.len();
    let asked: usize = world.asked.borrow().len();
    assert!(asked <= (3 * n + 2) * (9 * n + 3));
    // Four passes: the hero conflicts twice, then the trial, then the end.
    assert_eq!(world.asked.borrow().iter().filter(|kind| kind.as_str() == "resolve").count(), 4);
    assert_eq!(world.merges_asked(), 3 + 2 + 1 + 2);
    assert_eq!(world.tests_asked(), 1);
}

#[test]
fn only_merge_and_trial_take_part() {
    let trial = Instruction::MergeTrial { hero_sidx: SegmentIndex(1), hero_tree_id: id(1) };
    assert!(!Instruction::Merge.should_skip());
    assert!(!trial.should_skip());
    assert!(Instruction::Skip.should_skip());
    assert!(Instruction::CertainConflict.should_skip());
}

#[test]
fn merge_begins_with_the_first_reference() {
    let stacks = vec![merged("refs/heads/A"), merged("refs/heads/B")];
    let hero = name("refs/heads/B");
    let merge = Merge::new(&stacks, Some(&hero), settings());
    assert_eq!(merge.phase, Phase::Resolving);
    assert_eq!(merge.names.len(), 2);
    assert!(merge.names[0].same(&name("refs/heads/A")));
    assert!(merge.names[1].same(&name("refs/heads/B")));
    assert!(merge.hero.as_ref().is_some_and(|kept| kept.same(&hero)));
    assert!(merge.slots.is_empty());
    assert!(!merge.ran_merge_trials);
    assert_eq!(merge.settings, settings());
    match merge.pending() {
        Step::Ask(Query::ResolveRef(asked)) => assert!(asked.same(&name("refs/heads/A"))),
        other => panic!("unexpected: {other:?}"),
    }
}

#[test]
fn hero_that_comes_first_is_never_left_out() {
    let world = World::new(&[
        ("refs/heads/H", &[(0, 1)]),
        ("refs/heads/X", &[(0, 2)]),
        ("refs/heads/G", &[(1, 1)]),
    ]);
    let outcome =
        run(&world, &["refs/heads/H", "refs/heads/X", "refs/heads/G"], Some("refs/heads/H"))
            .unwrap();
    assert_eq!(short_names(&outcome), ["H", "G"]);
    assert_eq!(conflicting_names(&outcome), ["refs/heads/X"]);
}

#[test]
fn hero_that_is_missing_changes_nothing() {
    let world = World::new(&[("refs/heads/A", &[(0, 1)]), ("refs/heads/B", &[(0, 2)])]);
    let outcome =
        run(&world, &["refs/heads/A", "refs/heads/B", "refs/heads/H"], Some("refs/heads/H"))
            .unwrap();
    assert_eq!(short_names(&outcome), ["A"]);
    assert_eq!(conflicting_names(&outcome), ["refs/heads/B"]);
    assert_eq!(missing_names(&outcome), ["refs/heads/H"]);
}

#[test]
fn nobody_is_merged_while_on_trial() {
    let world = World::new(&[
        ("refs/heads/G1", &[(0, 1)]),
        ("refs/heads/X", &[(3, 7)]),
        ("refs/heads/G2", &[(1, 3)]),
        ("refs/heads/Y", &[(3, 8)]),
        ("refs/heads/H", &[(3, 9)]),
    ]);
    let merge = scripted_merge(
        &["refs/heads/G1", "refs/heads/X", "refs/heads/G2", "refs/heads/Y", "refs/heads/H"],
        Some("refs/heads/H"),
        &world,
    );
    assert!(matches!(merge.phase, Phase::Done { .. }));
    assert!(merge.ran_merge_trials);
    let modes: Vec<Instruction> = merge.slots.iter().flatten().map(|tip| tip.mode).collect();
    assert_eq!(
        modes,
        [
            Instruction::Merge,
            Instruction::CertainConflict,
            Instruction::Merge,
            Instruction::CertainConflict,
            Instruction::Merge,
        ]
    );
    match merge.pending() {
        Step::Done(outcome) => {
            assert_eq!(short_names(&outcome), ["G1", "G2", "H"]);
            assert_eq!(conflicting_names(&outcome), ["refs/heads/X", "refs/heads/Y"]);
        }
        other => panic!("unexpected: {other:?}"),
    }
}

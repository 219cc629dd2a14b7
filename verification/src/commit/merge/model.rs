//! The merge as a state machine over mathematical values: which question is
//! pending in each state, and which state follows on each answer.

use crate::commit::{workspace_commit, CommitView, StackView};
use crate::commit::merge::{
    CommitSettings, ConflictingStackView, MergeError, OutcomeView, QueryView, Reply, StepView,
    TreeMerge,
};
use crate::id::{ObjectId, SegmentIndex};
use crate::pick::picked;
use crate::refname::short_name;
use vstd::prelude::*;

verus! {

/// What is to happen with a candidate in the next merge.
#[derive(Clone, Copy, Debug, PartialEq, Eq)]
pub enum Instruction {
    /// Merge its tree into the running merge.
    Merge,
    /// Merge it, then test the result against the hero's tree before the
    /// verdict is given.
    MergeTrial { hero_sidx: SegmentIndex, hero_tree_id: ObjectId },
    /// Leave it out of this pass; the verdict is not final.
    Skip,
    /// Leave it out: the conflict is certainly its own.
    CertainConflict,
}

impl Instruction {
    /// Whether the candidate is left out of the merge.
    pub open spec fn skips(self) -> bool {
        self is Skip || self is CertainConflict
    }

    /// Whether the candidate is left out of the merge.
    pub fn should_skip(&self) -> (skip: bool)
        ensures
            skip == self.skips(),
    {
        match self {
            Instruction::Merge | Instruction::MergeTrial { .. } => false,
            Instruction::Skip | Instruction::CertainConflict => true,
        }
    }
}

/// A candidate: a stack whose reference the graph holds.
#[derive(Clone, Copy, Debug, PartialEq, Eq)]
pub struct Tip {
    pub mode: Instruction,
    /// The commit at the tip of the stack.
    pub commit_id: ObjectId,
    /// The position of the stack in the graph.
    pub sidx: SegmentIndex,
}

/// The running merge of one pass.
#[derive(Clone, Copy, Debug, PartialEq, Eq)]
pub struct Running {
    /// The base of the latest merge, which is the lowest base so far.
    pub prev_base_sidx: Option<SegmentIndex>,
    /// The tree merged so far, once there was a merge.
    pub merge_tree_id: Option<ObjectId>,
    /// The tree and the position of the latest candidate that was taken in.
    pub previous_tip: Option<(ObjectId, SegmentIndex)>,
}

/// A merge on behalf of a trial: the base and the tree of the merge that
/// took the candidate in, to be adopted if the trial is passed.
#[derive(Clone, Copy, Debug, PartialEq, Eq)]
pub struct Trial {
    pub base: SegmentIndex,
    pub merged: ObjectId,
}

/// One merge in the making, from the search for its base to its result.
#[derive(Clone, Copy, Debug, PartialEq, Eq)]
pub struct Job {
    /// The candidate that the merge is about.
    pub idx: usize,
    /// The tree of that candidate.
    pub this_tree: ObjectId,
    /// The positions between which the base is sought.
    pub left: SegmentIndex,
    pub right: SegmentIndex,
    /// The two trees to merge.
    pub ours: ObjectId,
    pub theirs: ObjectId,
    /// Set if the merge tests a candidate on trial against the hero.
    pub trial: Option<Trial>,
}

/// What the engine waits for.
#[derive(Clone, Copy, Debug, PartialEq, Eq)]
pub enum Phase {
    /// The position of the next reference that is not resolved yet.
    Resolving,
    /// The tree of the candidate at `idx`.
    TipTree { idx: usize },
    /// The position of the merge base.
    BaseSegment(Job),
    /// The commit at the merge base.
    BaseCommit(Job, SegmentIndex),
    /// The tree of the commit at the merge base.
    BaseTree(Job, SegmentIndex, ObjectId),
    /// The merge of the two trees over the tree of the base, or for a trial
    /// whether they conflict.
    Merging(Job, SegmentIndex, ObjectId),
    /// The id of the workspace commit with this tree.
    Writing { tree: ObjectId },
    /// Nothing: the workspace commit is written under this id.
    Done { id: ObjectId },
    /// Nothing: the merge has failed.
    Failed(MergeError),
}

/// The state of a merge.
pub struct State {
    /// The references to merge, in order.
    pub names: Seq<Seq<u8>>,
    /// The reference that must end up merged, if the caller names one.
    pub hero: Option<Seq<u8>>,
    pub settings: CommitSettings,
    /// For each reference that was looked up, in order, the candidate that
    /// was found, if any.
    pub slots: Seq<Option<Tip>>,
    /// Whether candidates were put on trial already.
    pub ran_merge_trials: bool,
    pub running: Running,
    pub phase: Phase,
}

/// Whether a slot holds a candidate that takes part in the merge.
pub open spec fn is_active(slot: Option<Tip>) -> bool {
    slot is Some && !slot->0.mode.skips()
}

/// Whether a slot holds a candidate that is left out of the merge.
pub open spec fn is_skipped(slot: Option<Tip>) -> bool {
    slot is Some && slot->0.mode.skips()
}

/// Whether a slot holds a candidate on trial.
pub open spec fn on_trial(slot: Option<Tip>) -> bool {
    slot is Some && slot->0.mode is MergeTrial
}

/// Whether some candidate takes part in the merge.
pub open spec fn any_active(slots: Seq<Option<Tip>>) -> bool {
    exists|i: int| 0 <= i < slots.len() && is_active(#[trigger] slots[i])
}

/// The first position from `from` on with an active candidate, or the
/// number of slots if there is none.
pub open spec fn next_active(slots: Seq<Option<Tip>>, from: int) -> int
    decreases slots.len() - from,
{
    if from < 0 || from >= slots.len() {
        slots.len() as int
    } else if is_active(slots[from]) {
        from
    } else {
        next_active(slots, from + 1)
    }
}

/// The last position before `before` with an active candidate, if any.
pub open spec fn prev_active(slots: Seq<Option<Tip>>, before: int) -> Option<int>
    decreases before,
{
    if before <= 0 || before > slots.len() {
        None
    } else if is_active(slots[before - 1]) {
        Some(before - 1)
    } else {
        prev_active(slots, before - 1)
    }
}

/// The number of active candidates among the first `n` slots.
pub open spec fn count_active(slots: Seq<Option<Tip>>, n: int) -> nat
    decreases n,
{
    if n <= 0 || n > slots.len() {
        0
    } else if is_active(slots[n - 1]) {
        count_active(slots, n - 1) + 1
    } else {
        count_active(slots, n - 1)
    }
}

/// Whether some candidate before `j` is left out of the merge.
pub open spec fn skipped_before(slots: Seq<Option<Tip>>, j: int) -> bool {
    exists|k: int| 0 <= k < j && k < slots.len() && is_skipped(#[trigger] slots[k])
}

/// Whether some candidate before `upto` is on trial.
pub open spec fn trial_before(slots: Seq<Option<Tip>>, upto: int) -> bool {
    exists|k: int| 0 <= k < upto && k < slots.len() && on_trial(#[trigger] slots[k])
}

/// Whether the attribution puts any candidate before `upto` on trial: one
/// that is skipped while another before it is left out too.
pub open spec fn makes_trials(slots: Seq<Option<Tip>>, upto: int) -> bool {
    exists|j: int|
        0 <= j < upto && j < slots.len() && (#[trigger] slots[j]) is Some && slots[j]->0.mode is Skip
            && skipped_before(slots, j)
}

/// The slots with the mode of one candidate replaced.
pub open spec fn with_mode(slots: Seq<Option<Tip>>, i: int, mode: Instruction) -> Seq<Option<Tip>> {
    slots.update(i, Some(Tip { mode, ..slots[i]->0 }))
}

/// The attribution once the hero, at `upto`, has merged cleanly. Of the
/// skipped candidates before it, the first one that is left out is
/// certainly in conflict. Each skipped one after that is put on trial
/// against the hero.
pub open spec fn attribute(
    slots: Seq<Option<Tip>>,
    upto: int,
    hero_sidx: SegmentIndex,
    hero_tree_id: ObjectId,
) -> Seq<Option<Tip>> {
    Seq::new(
        slots.len(),
        |j: int|
            if j < upto && slots[j] is Some && slots[j]->0.mode is Skip {
                if skipped_before(slots, j) {
                    Some(Tip { mode: Instruction::MergeTrial { hero_sidx, hero_tree_id }, ..slots[j]->0 })
                } else {
                    Some(Tip { mode: Instruction::CertainConflict, ..slots[j]->0 })
                }
            } else {
                slots[j]
            },
    )
}

impl Running {
    /// The running merge at the start of a pass.
    pub open spec fn fresh() -> Running {
        Running { prev_base_sidx: None, merge_tree_id: None, previous_tip: None }
    }

    /// The tree of the running merge: the merged tree, or without any merge
    /// the tree of the one candidate that was taken in.
    pub open spec fn tree(self) -> ObjectId {
        match self.merge_tree_id {
            Some(tree) => tree,
            None => {
                let (tree, _) = self.previous_tip->0;
                tree
            },
        }
    }

    /// The running merge once the candidate with `this_tree` at `sidx` was
    /// merged in over `base`, giving `tree`.
    pub open spec fn adopt(
        base: SegmentIndex,
        tree: ObjectId,
        this_tree: ObjectId,
        sidx: SegmentIndex,
    ) -> Running {
        Running {
            prev_base_sidx: Some(base),
            merge_tree_id: Some(tree),
            previous_tip: Some((this_tree, sidx)),
        }
    }
}

impl State {
    /// The state in which a merge begins. `unsupported` is the position of
    /// the first stack of the input that is an unmerged tree, if any.
    pub open spec fn init(
        names: Seq<Seq<u8>>,
        hero: Option<Seq<u8>>,
        settings: CommitSettings,
        unsupported: Option<usize>,
    ) -> State {
        let state = State {
            names,
            hero,
            settings,
            slots: Seq::empty(),
            ran_merge_trials: false,
            running: Running::fresh(),
            phase: Phase::Resolving,
        };
        match unsupported {
            Some(stack) => state.fail(MergeError::UnmergedTree { stack }),
            None => if names.len() == 0 {
                state.fail(MergeError::NothingToMerge)
            } else {
                state
            },
        }
    }

    /// Whether the candidate at `i` is the hero.
    pub open spec fn is_hero(self, i: int) -> bool {
        self.hero == Some(self.names[i])
    }

    /// Whether the merge has come to its end, one way or the other.
    pub open spec fn ended(self) -> bool {
        self.phase is Done || self.phase is Failed
    }

    /// The state of a merge that has failed.
    pub open spec fn fail(self, error: MergeError) -> State {
        State { phase: Phase::Failed(error), ..self }
    }

    /// The state that waits for something else.
    pub open spec fn wait(self, phase: Phase) -> State {
        State { phase, ..self }
    }

    /// Go on with the first active candidate from `from` on, or conclude the
    /// pass if there is none.
    pub open spec fn seek(self, from: int) -> State {
        let idx = next_active(self.slots, from);
        if idx < self.slots.len() {
            self.wait(Phase::TipTree { idx: idx as usize })
        } else {
            self.conclude()
        }
    }

    /// Start a pass over the candidates.
    pub open spec fn begin_pass(self) -> State {
        State { running: Running::fresh(), ..self }.seek(0)
    }

    /// The end of a pass that no restart cut short: with no candidate left
    /// the merge fails, else the workspace commit is written.
    pub open spec fn conclude(self) -> State {
        if any_active(self.slots) {
            self.wait(Phase::Writing { tree: self.running.tree() })
        } else {
            self.fail(MergeError::NothingToMerge)
        }
    }

    /// The state after the graph has answered for the next reference.
    pub open spec fn resolved(self, found: Option<(SegmentIndex, ObjectId)>) -> State {
        let slot = match found {
            Some((sidx, commit_id)) => Some(Tip { mode: Instruction::Merge, commit_id, sidx }),
            None => None,
        };
        let state = State { slots: self.slots.push(slot), ..self };
        if state.slots.len() >= state.names.len() {
            state.begin_pass()
        } else {
            state
        }
    }

    /// The state once the tree of the candidate at `idx` is known: the first
    /// candidate is taken in as it is, a later one is to be merged with what
    /// is there, over the base between the lowest base so far and itself.
    pub open spec fn tip_tree(self, idx: usize, tree: ObjectId) -> State {
        let tip = self.slots[idx as int]->0;
        match self.running.previous_tip {
            None => State {
                running: Running { previous_tip: Some((tree, tip.sidx)), ..self.running },
                ..self
            }.seek(idx + 1),
            Some((prev_tree, prev_sidx)) => self.wait(
                Phase::BaseSegment(
                    Job {
                        idx,
                        this_tree: tree,
                        left: match self.running.prev_base_sidx {
                            Some(base) => base,
                            None => prev_sidx,
                        },
                        right: tip.sidx,
                        ours: match self.running.merge_tree_id {
                            Some(merged) => merged,
                            None => prev_tree,
                        },
                        theirs: tree,
                        trial: None,
                    },
                ),
            ),
        }
    }

    /// The state after a candidate was merged in.
    pub open spec fn adopted(self, base: SegmentIndex, tree: ObjectId, job: Job) -> State {
        State {
            running: Running::adopt(base, tree, job.this_tree, self.slots[job.idx as int]->0.sidx),
            ..self
        }.seek(job.idx + 1)
    }

    /// The state with the mode of one candidate replaced.
    pub open spec fn relabel(self, i: int, mode: Instruction) -> State {
        State { slots: with_mode(self.slots, i, mode), ..self }
    }

    /// The state after the merge of a candidate into the running merge has
    /// conflicted. A candidate on trial must not conflict before the hero is
    /// merged in. For the hero, the last active candidate before it is left
    /// out and the pass starts again; there always is one, for the hero was
    /// merged with something. Any other candidate is left out itself.
    pub open spec fn conflicted(self, job: Job) -> State {
        let idx = job.idx as int;
        if self.slots[idx]->0.mode is MergeTrial {
            self.fail(MergeError::TrialConflict { stack: job.idx })
        } else if self.is_hero(idx) {
            self.relabel(prev_active(self.slots, idx)->0, Instruction::Skip).begin_pass()
        } else {
            self.relabel(idx, Instruction::Skip).seek(idx + 1)
        }
    }

    /// The state after a candidate has merged cleanly into the running
    /// merge, over `base` and into `tree`.
    pub open spec fn merged_cleanly(self, job: Job, base: SegmentIndex, tree: ObjectId) -> State {
        let idx = job.idx as int;
        let tip = self.slots[idx]->0;
        if self.is_hero(idx) {
            if trial_before(self.slots, idx) {
                self.fail(MergeError::UnconcludedTrial)
            } else {
                let attributed = State {
                    slots: attribute(self.slots, idx, tip.sidx, job.this_tree),
                    ..self
                };
                if makes_trials(self.slots, idx) {
                    if self.ran_merge_trials {
                        self.fail(MergeError::TrialsRanTwice)
                    } else {
                        State { ran_merge_trials: true, ..attributed }.begin_pass()
                    }
                } else {
                    attributed.adopted(base, tree, job)
                }
            }
        } else {
            match tip.mode {
                Instruction::MergeTrial { hero_sidx, hero_tree_id } => self.wait(
                    Phase::BaseSegment(
                        Job {
                            idx: job.idx,
                            this_tree: job.this_tree,
                            left: base,
                            right: hero_sidx,
                            ours: tree,
                            theirs: hero_tree_id,
                            trial: Some(Trial { base, merged: tree }),
                        },
                    ),
                ),
                _ => self.adopted(base, tree, job),
            }
        }
    }

    /// The state after the test of a candidate on trial against the hero.
    pub open spec fn tried(self, job: Job, conflicts: bool) -> State {
        let idx = job.idx as int;
        let trial = job.trial->0;
        if conflicts {
            self.relabel(idx, Instruction::CertainConflict).seek(idx + 1)
        } else {
            self.relabel(idx, Instruction::Merge).adopted(trial.base, trial.merged, job)
        }
    }

    /// The state that follows on a reply. A reply of another kind than the
    /// pending question asks for fails the merge; once the merge has ended
    /// nothing changes any more.
    pub open spec fn next(self, reply: Reply) -> State {
        match (self.phase, reply) {
            (Phase::Done { .. }, _) => self,
            (Phase::Failed(_), _) => self,
            (Phase::Resolving, Reply::Resolved(found)) => self.resolved(found),
            (Phase::TipTree { idx }, Reply::Tree(tree)) => self.tip_tree(idx, tree),
            (Phase::BaseSegment(job), Reply::MergeBase(Some(base))) => self.wait(
                Phase::BaseCommit(job, base),
            ),
            (Phase::BaseSegment(job), Reply::MergeBase(None)) => self.fail(
                MergeError::NoMergeBase { left: job.left, right: job.right },
            ),
            (Phase::BaseCommit(job, base), Reply::Commit(Some(commit))) => self.wait(
                Phase::BaseTree(job, base, commit),
            ),
            (Phase::BaseCommit(job, base), Reply::Commit(None)) => self.fail(
                MergeError::EmptyBase { base, left: job.left, right: job.right },
            ),
            (Phase::BaseTree(job, base, _), Reply::Tree(tree)) => self.wait(
                Phase::Merging(job, base, tree),
            ),
            (Phase::Merging(job, base, _), Reply::Merged(result)) => if job.trial is Some {
                self.fail(MergeError::UnexpectedReply)
            } else {
                match result {
                    TreeMerge::Conflicted => self.conflicted(job),
                    TreeMerge::Clean(tree) => self.merged_cleanly(job, base, tree),
                }
            },
            (Phase::Merging(job, _, _), Reply::Tested { conflicts }) => if job.trial is Some {
                self.tried(job, conflicts)
            } else {
                self.fail(MergeError::UnexpectedReply)
            },
            (Phase::Writing { .. }, Reply::Written(id)) => self.wait(Phase::Done { id }),
            _ => self.fail(MergeError::UnexpectedReply),
        }
    }

    /// The state that follows on a sequence of replies, each given in its
    /// turn.
    pub open spec fn after(self, replies: Seq<Reply>) -> State
        decreases replies.len(),
    {
        if replies.len() == 0 {
            self
        } else {
            self.after(replies.drop_last()).next(replies.last())
        }
    }

    /// The stack that the candidate at `i` makes if it is merged.
    pub open spec fn stack_at(self, i: int) -> StackView {
        StackView { tip: self.slots[i]->0.commit_id, name: Some(short_name(self.names[i])) }
    }

    /// The positions of the candidates that are merged.
    pub open spec fn merged(self) -> Seq<int> {
        picked(self.slots.len() as int, |i: int| is_active(self.slots[i]))
    }

    /// The positions of the candidates that are left out.
    pub open spec fn conflicting(self) -> Seq<int> {
        picked(self.slots.len() as int, |i: int| is_skipped(self.slots[i]))
    }

    /// The positions of the references that the graph does not hold.
    pub open spec fn missing(self) -> Seq<int> {
        picked(self.slots.len() as int, |i: int| self.slots[i] is None)
    }

    /// The merged stacks, in the order of the input.
    pub open spec fn stacks(self) -> Seq<StackView> {
        let merged = self.merged();
        Seq::new(merged.len(), |k: int| self.stack_at(merged[k]))
    }

    /// The stacks that are left out, in the order of the input.
    pub open spec fn conflicting_stacks(self) -> Seq<ConflictingStackView> {
        let conflicting = self.conflicting();
        Seq::new(
            conflicting.len(),
            |k: int|
                ConflictingStackView {
                    tip: self.slots[conflicting[k]]->0.commit_id,
                    ref_name: self.names[conflicting[k]],
                },
        )
    }

    /// The references that the graph does not hold, in the order of the
    /// input.
    pub open spec fn missing_stacks(self) -> Seq<Seq<u8>> {
        let missing = self.missing();
        Seq::new(missing.len(), |k: int| self.names[missing[k]])
    }

    /// The workspace commit over the merged stacks with the given tree.
    pub open spec fn commit(self, tree: ObjectId) -> CommitView {
        workspace_commit(self.stacks(), tree, self.settings.signing_time())
    }

    /// The outcome of the merge whose workspace commit was written under
    /// `id`.
    pub open spec fn outcome(self, id: ObjectId) -> OutcomeView {
        OutcomeView {
            workspace_commit_id: id,
            stacks: self.stacks(),
            missing_stacks: self.missing_stacks(),
            conflicting_stacks: self.conflicting_stacks(),
        }
    }

    /// Where the merge stands: the question that is pending, or how the
    /// merge has ended.
    pub open spec fn pending(self) -> StepView {
        match self.phase {
            Phase::Resolving => StepView::Ask(
                QueryView::ResolveRef(self.names[self.slots.len() as int]),
            ),
            Phase::TipTree { idx } => StepView::Ask(
                QueryView::PeelToTree(self.slots[idx as int]->0.commit_id),
            ),
            Phase::BaseSegment(job) => StepView::Ask(
                QueryView::FirstMergeBase { left: job.left, right: job.right },
            ),
            Phase::BaseCommit(_, base) => StepView::Ask(QueryView::TipSkipEmpty(base)),
            Phase::BaseTree(_, _, commit) => StepView::Ask(QueryView::PeelToTree(commit)),
            Phase::Merging(job, _, base_tree) => StepView::Ask(
                if job.trial is Some {
                    QueryView::TestMerge { base: base_tree, ours: job.ours, theirs: job.theirs }
                } else {
                    QueryView::MergeTrees { base: base_tree, ours: job.ours, theirs: job.theirs }
                },
            ),
            Phase::Writing { tree } => StepView::Ask(QueryView::WriteCommit(self.commit(tree))),
            Phase::Done { id } => StepView::Done(self.outcome(id)),
            Phase::Failed(error) => StepView::Failed(error),
        }
    }

    /// Whether the state is one that a merge can be in.
    pub open spec fn wf(self) -> bool {
        &&& self.slots.len() <= self.names.len() <= usize::MAX
        &&& self.hero is None ==> !self.ran_merge_trials && forall|i: int|
            0 <= i < self.slots.len() ==> !on_trial(#[trigger] self.slots[i]) && !((
            self.slots[i]) is Some && self.slots[i]->0.mode is CertainConflict)
        &&& match self.phase {
            Phase::Resolving => self.slots.len() < self.names.len() && self.running
                == Running::fresh(),
            Phase::TipTree { idx } => self.in_pass(idx as int),
            Phase::BaseSegment(job) => self.job_wf(job),
            Phase::BaseCommit(job, _) => self.job_wf(job),
            Phase::BaseTree(job, _, _) => self.job_wf(job),
            Phase::Merging(job, _, _) => self.job_wf(job),
            Phase::Writing { tree } => self.slots.len() == self.names.len() && any_active(
                self.slots,
            ),
            Phase::Done { .. } => self.slots.len() == self.names.len() && any_active(self.slots),
            Phase::Failed(_) => true,
        }
    }

    /// Whether a pass can stand at the candidate at `idx`: all references
    /// are resolved, the candidate is active, and one was taken in if and
    /// only if an active candidate precedes it.
    pub open spec fn in_pass(self, idx: int) -> bool {
        &&& self.slots.len() == self.names.len()
        &&& 0 <= idx < self.slots.len()
        &&& is_active(self.slots[idx])
        &&& self.taken_in(idx)
    }

    /// A candidate was taken in if and only if an active one stands before
    /// `upto`.
    pub open spec fn taken_in(self, upto: int) -> bool {
        (exists|j: int| 0 <= j < upto && j < self.slots.len() && is_active(#[trigger] self.slots[j]))
            <==> self.running.previous_tip is Some
    }

    /// Whether a merge in the making fits the state.
    pub open spec fn job_wf(self, job: Job) -> bool {
        &&& self.in_pass(job.idx as int)
        &&& self.running.previous_tip is Some
        &&& job.trial is Some ==> on_trial(self.slots[job.idx as int])
    }

    /// How far the merge is from its end, as three numbers of which a later
    /// one counts only where the earlier ones are equal: what is left of
    /// resolving and of trials, the number of active candidates, and what is
    /// left of the pass.
    pub open spec fn rank(self) -> (nat, nat, nat) {
        let active = count_active(self.slots, self.slots.len() as int);
        let stage: nat = if self.ran_merge_trials {
            0
        } else {
            1
        };
        match self.phase {
            Phase::Resolving => (2, (self.names.len() - self.slots.len()) as nat, 0),
            Phase::TipTree { idx } => (stage, active, self.left_of_pass(idx as int, 0)),
            Phase::BaseSegment(job) => (stage, active, self.left_of_job(job, 1)),
            Phase::BaseCommit(job, _) => (stage, active, self.left_of_job(job, 2)),
            Phase::BaseTree(job, _, _) => (stage, active, self.left_of_job(job, 3)),
            Phase::Merging(job, _, _) => (stage, active, self.left_of_job(job, 4)),
            Phase::Writing { .. } => (stage, active, 1),
            Phase::Done { .. } => (0, 0, 0),
            Phase::Failed(_) => (0, 0, 0),
        }
    }

    /// The number of questions that a pass may still ask when it stands at
    /// the `step`-th question of the merge of `job`.
    pub open spec fn left_of_job(self, job: Job, step: int) -> nat {
        self.left_of_pass(job.idx as int, job_progress(job) + step)
    }

    /// The number of questions that a pass may still ask when it stands at
    /// the candidate at `idx`, `asked` of its at most nine being answered.
    pub open spec fn left_of_pass(self, idx: int, asked: int) -> nat {
        (2 + 9 * (self.slots.len() - idx) - asked) as nat
    }
}

/// The number of questions that were answered for a candidate before the
/// merge of `job` began.
pub open spec fn job_progress(job: Job) -> int {
    if job.trial is Some {
        4
    } else {
        0
    }
}

} // verus!

//! The merge engine: the state machine of `model`, in executable form.

use crate::commit::{stack_views, workspace_commit, Commit, Stack, WorkspaceCommit};
use crate::commit::merge::{
    CommitSettings, ConflictingStack, MergeError, Outcome, Query, Reply, Step, TreeMerge,
    WorkspaceCommitRelation, WorkspaceStack,
};
use crate::commit::merge::model::{
    attribute, is_active, is_skipped, makes_trials, next_active, on_trial, prev_active,
    skipped_before, trial_before, Instruction, Job, Phase, Running, State, Tip, Trial,
};
use crate::commit::merge::steps::{lemma_next, lemma_next_active, lemma_prev_active, passing};
use crate::id::{ObjectId, SegmentIndex};
use crate::pick::{lemma_picked, picked};
use crate::refname::RefName;
use vstd::prelude::*;

verus! {

/// The names of a vector, each by its view.
pub open spec fn name_views(names: Seq<RefName>) -> Seq<Seq<u8>> {
    Seq::new(names.len(), |i: int| names[i]@)
}

/// The view of a name that may be absent.
pub open spec fn name_view(name: Option<&RefName>) -> Option<Seq<u8>> {
    match name {
        Some(name) => Some(name@),
        None => None,
    }
}

/// Whether a stack of the input is to be merged: it has a branch and is
/// listed as merged.
pub open spec fn wants_merge(stack: WorkspaceStack) -> bool {
    stack.top() is Some && stack.workspacecommit_relation is Merged
}

/// Whether a stack of the input cannot be dealt with: it has a branch and is
/// listed as an unmerged tree.
pub open spec fn is_unsupported(stack: WorkspaceStack) -> bool {
    stack.top() is Some && stack.workspacecommit_relation is UnmergedTree
}

/// The references to merge: the top-most branch of each stack that is to be
/// merged, in order.
pub open spec fn merge_names(stacks: Seq<WorkspaceStack>) -> Seq<Seq<u8>> {
    let wanted = picked(stacks.len() as int, |i: int| wants_merge(stacks[i]));
    Seq::new(wanted.len(), |k: int| stacks[wanted[k]].top()->0)
}

/// The position of the first stack among the first `n` that cannot be dealt
/// with, if there is one.
pub open spec fn first_unsupported(stacks: Seq<WorkspaceStack>, n: int) -> Option<usize>
    decreases n,
{
    if n <= 0 || n > stacks.len() {
        None
    } else {
        match first_unsupported(stacks, n - 1) {
            Some(stack) => Some(stack),
            None => if is_unsupported(stacks[n - 1]) {
                Some((n - 1) as usize)
            } else {
                None
            },
        }
    }
}

/// The state in which the merge of the given stacks begins.
pub open spec fn init_of(
    stacks: Seq<WorkspaceStack>,
    hero: Option<Seq<u8>>,
    settings: CommitSettings,
) -> State {
    State::init(merge_names(stacks), hero, settings, first_unsupported(stacks, stacks.len() as int))
}

/// A merge of stacks into a workspace commit, as far as it has come.
#[derive(Debug)]
pub struct Merge {
    /// The references to merge, in order.
    pub names: Vec<RefName>,
    /// The reference that must end up merged, if the caller names one.
    pub hero: Option<RefName>,
    pub settings: CommitSettings,
    /// For each reference that was looked up, the candidate that was found.
    pub slots: Vec<Option<Tip>>,
    /// Whether candidates were put on trial already.
    pub ran_merge_trials: bool,
    pub running: Running,
    pub phase: Phase,
}

impl View for Merge {
    type V = State;

    open spec fn view(&self) -> State {
        State {
            names: name_views(self.names@),
            hero: match self.hero {
                Some(hero) => Some(hero@),
                None => None,
            },
            settings: self.settings,
            slots: self.slots@,
            ran_merge_trials: self.ran_merge_trials,
            running: self.running,
            phase: self.phase,
        }
    }
}

impl Merge {
    /// Begin the merge of the stacks that the workspace lists. Stacks
    /// outside the workspace and stacks without a branch take no part. A
    /// stack that is an unmerged tree fails the merge at once, as does a
    /// list that leaves nothing to merge.
    pub fn new(
        stacks: &Vec<WorkspaceStack>,
        hero: Option<&RefName>,
        settings: CommitSettings,
    ) -> (merge: Merge)
        ensures
            merge@ == init_of(stacks@, name_view(hero), settings),
            merge@.wf(),
    {
        let ghost wanted = |i: int| wants_merge(stacks@[i]);
        let mut names: Vec<RefName> = Vec::new();
        let mut unsupported: Option<usize> = None;
        let mut i: usize = 0;
        while i < stacks.len()
            invariant
                i <= stacks.len(),
                wanted == |i: int| wants_merge(stacks@[i]),
                names@.len() == picked(i as int, wanted).len(),
                names@.len() <= i,
                forall|k: int|
                    0 <= k < names@.len() ==> (#[trigger] names@[k])@ == stacks@[picked(
                        i as int,
                        wanted,
                    )[k]].top()->0,
                unsupported == first_unsupported(stacks@, i as int),
            decreases stacks.len() - i,
        {
            let stack = &stacks[i];
            if stack.branches.len() > 0 {
                match stack.workspacecommit_relation {
                    WorkspaceCommitRelation::Merged => {
                        names.push(stack.branches[0].clone());
                    },
                    WorkspaceCommitRelation::UnmergedTree => {
                        if unsupported.is_none() {
                            unsupported = Some(i);
                        }
                    },
                    WorkspaceCommitRelation::Outside => {},
                }
            }
            i += 1;
        }
        let phase = match unsupported {
            Some(stack) => Phase::Failed(MergeError::UnmergedTree { stack }),
            None => if names.len() == 0 {
                Phase::Failed(MergeError::NothingToMerge)
            } else {
                Phase::Resolving
            },
        };
        let merge = Merge {
            names,
            hero: match hero {
                Some(hero) => Some(hero.clone()),
                None => None,
            },
            settings,
            slots: Vec::new(),
            ran_merge_trials: false,
            running: Running { prev_base_sidx: None, merge_tree_id: None, previous_tip: None },
            phase,
        };
        proof {
            assert(merge@.names =~= merge_names(stacks@));
            assert(merge@.slots =~= Seq::empty());
        }
        merge
    }

    /// The first position from `from` on with an active candidate, or the
    /// number of slots.
    fn find_next_active(&self, from: usize) -> (idx: usize)
        requires
            from <= self.slots@.len(),
        ensures
            idx == next_active(self.slots@, from as int),
            from <= idx <= self.slots@.len(),
    {
        let mut idx: usize = from;
        while idx < self.slots.len()
            invariant
                from <= idx <= self.slots@.len(),
                next_active(self.slots@, idx as int) == next_active(self.slots@, from as int),
            decreases self.slots@.len() - idx,
        {
            match &self.slots[idx] {
                Some(tip) => {
                    if !tip.mode.should_skip() {
                        return idx;
                    }
                },
                None => {},
            }
            idx += 1;
        }
        idx
    }

    /// The last position before `before` with an active candidate.
    fn find_prev_active(&self, before: usize) -> (found: Option<usize>)
        requires
            before <= self.slots@.len(),
        ensures
            match found {
                Some(idx) => prev_active(self.slots@, before as int) == Some(idx as int) && idx
                    < before,
                None => prev_active(self.slots@, before as int) is None,
            },
    {
        let mut idx: usize = before;
        while idx > 0
            invariant
                idx <= before <= self.slots@.len(),
                prev_active(self.slots@, idx as int) == prev_active(self.slots@, before as int),
            decreases idx,
        {
            match &self.slots[idx - 1] {
                Some(tip) => {
                    if !tip.mode.should_skip() {
                        return Some(idx - 1);
                    }
                },
                None => {},
            }
            idx -= 1;
        }
        None
    }

    /// Go on with the first active candidate from `from` on, or conclude the
    /// pass.
    fn seek(&mut self, from: usize)
        requires
            passing(old(self)@),
            from <= old(self).slots@.len(),
            from > 0 ==> old(self).running.previous_tip is Some,
        ensures
            final(self)@ == old(self)@.seek(from as int),
    {
        let idx = self.find_next_active(from);
        proof {
            lemma_next_active(self.slots@, from as int);
        }
        if idx < self.slots.len() {
            self.phase = Phase::TipTree { idx };
            return ;
        }
        let first = self.find_next_active(0);
        proof {
            lemma_next_active(self.slots@, 0);
        }
        if first < self.slots.len() {
            assert(is_active(self.slots@[first as int]));
            let tree = match self.running.merge_tree_id {
                Some(tree) => tree,
                None => match self.running.previous_tip {
                    Some((tree, _)) => tree,
                    None => vstd::pervasive::unreached(),
                },
            };
            self.phase = Phase::Writing { tree };
        } else {
            self.phase = Phase::Failed(MergeError::NothingToMerge);
        }
    }

    /// Start a pass over the candidates.
    fn begin_pass(&mut self)
        requires
            passing(old(self)@),
        ensures
            final(self)@ == old(self)@.begin_pass(),
    {
        self.running = Running { prev_base_sidx: None, merge_tree_id: None, previous_tip: None };
        self.seek(0);
    }

    /// Replace the mode of the candidate at `i`.
    fn relabel(&mut self, i: usize, mode: Instruction)
        requires
            i < old(self).slots@.len(),
            old(self).slots@[i as int] is Some,
        ensures
            final(self)@ == old(self)@.relabel(i as int, mode),
    {
        let tip = match self.slots[i] {
            Some(tip) => tip,
            None => vstd::pervasive::unreached(),
        };
        self.slots[i] = Some(Tip { mode, commit_id: tip.commit_id, sidx: tip.sidx });
    }

    /// Whether some candidate before `upto` is on trial.
    fn has_trial_before(&self, upto: usize) -> (found: bool)
        requires
            upto <= self.slots@.len(),
        ensures
            found == trial_before(self.slots@, upto as int),
    {
        let mut j: usize = 0;
        while j < upto
            invariant
                j <= upto <= self.slots@.len(),
                !trial_before(self.slots@, j as int),
            decreases upto - j,
        {
            if let Some(tip) = &self.slots[j] {
                if let Instruction::MergeTrial { .. } = tip.mode {
                    assert(on_trial(self.slots@[j as int]));
                    return true;
                }
            }
            j += 1;
        }
        false
    }

    /// Attribute the conflicts before the hero at `upto`, who has merged
    /// cleanly. Says whether any candidate was put on trial.
    fn attribute_conflicts(
        &mut self,
        upto: usize,
        hero_sidx: SegmentIndex,
        hero_tree_id: ObjectId,
    ) -> (trials: bool)
        requires
            upto <= old(self).slots@.len(),
        ensures
            trials == makes_trials(old(self).slots@, upto as int),
            final(self)@ == (State {
                slots: attribute(old(self).slots@, upto as int, hero_sidx, hero_tree_id),
                ..old(self)@
            }),
    {
        let ghost before = self.slots@;
        let mut saw_first_certain_conflict = false;
        let mut has_merge_trials = false;
        let mut j: usize = 0;
        while j < upto
            invariant
                j <= upto <= before.len(),
                self.slots@.len() == before.len(),
                forall|k: int|
                    0 <= k < j ==> (#[trigger] self.slots@[k]) == attribute(
                        before,
                        upto as int,
                        hero_sidx,
                        hero_tree_id,
                    )[k],
                forall|k: int| j <= k < before.len() ==> (#[trigger] self.slots@[k]) == before[k],
                saw_first_certain_conflict == skipped_before(before, j as int),
                has_merge_trials == makes_trials(before, j as int),
                self.names == old(self).names,
                self.hero == old(self).hero,
                self.settings == old(self).settings,
                self.ran_merge_trials == old(self).ran_merge_trials,
                self.running == old(self).running,
                self.phase == old(self).phase,
            decreases upto - j,
        {
            let ghost saw = saw_first_certain_conflict;
            let ghost made = has_merge_trials;
            match self.slots[j] {
                Some(tip) => match tip.mode {
                    Instruction::Merge => {},
                    Instruction::MergeTrial { .. } => {},
                    Instruction::CertainConflict => {
                        saw_first_certain_conflict = true;
                    },
                    Instruction::Skip => {
                        if saw_first_certain_conflict {
                            self.slots[j] = Some(
                                Tip {
                                    mode: Instruction::MergeTrial { hero_sidx, hero_tree_id },
                                    commit_id: tip.commit_id,
                                    sidx: tip.sidx,
                                },
                            );
                            has_merge_trials = true;
                        } else {
                            self.slots[j] = Some(
                                Tip {
                                    mode: Instruction::CertainConflict,
                                    commit_id: tip.commit_id,
                                    sidx: tip.sidx,
                                },
                            );
                            saw_first_certain_conflict = true;
                        }
                    },
                },
                None => {},
            }
            proof {
                assert(is_skipped(before[j as int]) ==> skipped_before(before, j + 1));
                assert(skipped_before(before, j as int) ==> skipped_before(before, j + 1));
                if skipped_before(before, j + 1) && !is_skipped(before[j as int]) {
                    let k = choose|k: int|
                        0 <= k < j + 1 && k < before.len() && is_skipped(#[trigger] before[k]);
                    assert(k < j);
                }
                assert(saw_first_certain_conflict == skipped_before(before, j + 1));
                let here = before[j as int] is Some && before[j as int]->0.mode is Skip && saw;
                assert(made ==> makes_trials(before, j + 1));
                assert(here ==> makes_trials(before, j + 1));
                if makes_trials(before, j + 1) && !here {
                    let k = choose|k: int|
                        0 <= k < j + 1 && k < before.len() && (#[trigger] before[k]) is Some
                            && before[k]->0.mode is Skip && skipped_before(before, k);
                    assert(k < j);
                    assert(makes_trials(before, j as int));
                }
                assert(has_merge_trials == makes_trials(before, j + 1));
            }
            j += 1;
        }
        assert(self.slots@ =~= attribute(before, upto as int, hero_sidx, hero_tree_id));
        has_merge_trials
    }

    /// Whether the candidate at `idx` is the hero.
    fn is_hero(&self, idx: usize) -> (hero: bool)
        requires
            idx < self.names@.len(),
        ensures
            hero == self@.is_hero(idx as int),
    {
        match &self.hero {
            Some(hero) => hero.same(&self.names[idx]),
            None => false,
        }
    }

    /// Take in the candidate of `job`, merged over `base` into `tree`, and
    /// go on behind it.
    fn adopt(&mut self, base: SegmentIndex, tree: ObjectId, job: Job)
        requires
            passing(old(self)@),
            job.idx < old(self).slots@.len(),
            old(self).slots@[job.idx as int] is Some,
        ensures
            final(self)@ == old(self)@.adopted(base, tree, job),
    {
        let tip = match self.slots[job.idx] {
            Some(tip) => tip,
            None => vstd::pervasive::unreached(),
        };
        self.running = Running {
            prev_base_sidx: Some(base),
            merge_tree_id: Some(tree),
            previous_tip: Some((job.this_tree, tip.sidx)),
        };
        self.seek(job.idx + 1);
    }

    /// The graph has answered for the next reference.
    fn on_resolved(&mut self, found: Option<(SegmentIndex, ObjectId)>)
        requires
            old(self)@.wf(),
            old(self).phase is Resolving,
        ensures
            final(self)@ == old(self)@.resolved(found),
    {
        let slot = match found {
            Some((sidx, commit_id)) => Some(Tip { mode: Instruction::Merge, commit_id, sidx }),
            None => None,
        };
        self.slots.push(slot);
        if self.slots.len() >= self.names.len() {
            self.begin_pass();
        }
    }

    /// The tree of the candidate at `idx` is known.
    fn on_tip_tree(&mut self, idx: usize, tree: ObjectId)
        requires
            old(self)@.wf(),
            old(self).phase == (Phase::TipTree { idx }),
        ensures
            final(self)@ == old(self)@.tip_tree(idx, tree),
    {
        let tip = match self.slots[idx] {
            Some(tip) => tip,
            None => vstd::pervasive::unreached(),
        };
        match self.running.previous_tip {
            None => {
                self.running.previous_tip = Some((tree, tip.sidx));
                self.seek(idx + 1);
            },
            Some((prev_tree, prev_sidx)) => {
                self.phase = Phase::BaseSegment(
                    Job {
                        idx,
                        this_tree: tree,
                        left: match self.running.prev_base_sidx {
                            Some(base) => base,
                            None => prev_sidx,
                        },
                        right: tip.sidx,
                        ours: match self.running.merge_tree_id {
                            Some(merged) => merged,
                            None => prev_tree,
                        },
                        theirs: tree,
                        trial: None,
                    },
                );
            },
        }
    }

    /// The merge of a candidate into the running merge has conflicted.
    fn on_conflicted(&mut self, job: Job)
        requires
            old(self)@.wf(),
            old(self)@.job_wf(job),
        ensures
            final(self)@ == old(self)@.conflicted(job),
    {
        let tip = match self.slots[job.idx] {
            Some(tip) => tip,
            None => vstd::pervasive::unreached(),
        };
        if let Instruction::MergeTrial { .. } = tip.mode {
            self.phase = Phase::Failed(MergeError::TrialConflict { stack: job.idx });
        } else if self.is_hero(job.idx) {
            proof {
                lemma_prev_active(self.slots@, job.idx as int);
            }
            match self.find_prev_active(job.idx) {
                Some(culprit) => {
                    self.relabel(culprit, Instruction::Skip);
                    self.begin_pass();
                },
                None => vstd::pervasive::unreached(),
            }
        } else {
            self.relabel(job.idx, Instruction::Skip);
            self.seek(job.idx + 1);
        }
    }

    /// A candidate has merged cleanly into the running merge.
    fn on_merged_cleanly(&mut self, job: Job, base: SegmentIndex, tree: ObjectId)
        requires
            old(self)@.wf(),
            old(self)@.job_wf(job),
        ensures
            final(self)@ == old(self)@.merged_cleanly(job, base, tree),
    {
        let tip = match self.slots[job.idx] {
            Some(tip) => tip,
            None => vstd::pervasive::unreached(),
        };
        if self.is_hero(job.idx) {
            if self.has_trial_before(job.idx) {
                self.phase = Phase::Failed(MergeError::UnconcludedTrial);
                return ;
            }
            if self.ran_merge_trials && self.would_make_trials(job.idx) {
                self.phase = Phase::Failed(MergeError::TrialsRanTwice);
                return ;
            }
            let has_merge_trials = self.attribute_conflicts(job.idx, tip.sidx, job.this_tree);
            if has_merge_trials {
                self.ran_merge_trials = true;
                self.begin_pass();
            } else {
                self.adopt(base, tree, job);
            }
        } else if let Instruction::MergeTrial { hero_sidx, hero_tree_id } = tip.mode {
            self.phase = Phase::BaseSegment(
                Job {
                    idx: job.idx,
                    this_tree: job.this_tree,
                    left: base,
                    right: hero_sidx,
                    ours: tree,
                    theirs: hero_tree_id,
                    trial: Some(Trial { base, merged: tree }),
                },
            );
        } else {
            self.adopt(base, tree, job);
        }
    }

    /// Whether the attribution would put any candidate before `upto` on
    /// trial.
    fn would_make_trials(&self, upto: usize) -> (trials: bool)
        requires
            upto <= self.slots@.len(),
        ensures
            trials == makes_trials(self.slots@, upto as int),
    {
        let mut saw = false;
        let mut j: usize = 0;
        while j < upto
            invariant
                j <= upto <= self.slots@.len(),
                saw == skipped_before(self.slots@, j as int),
                !makes_trials(self.slots@, j as int),
            decreases upto - j,
        {
            if let Some(tip) = &self.slots[j] {
                if tip.mode.should_skip() {
                    if saw {
                        if let Instruction::Skip = tip.mode {
                            return true;
                        }
                    }
                    assert(is_skipped(self.slots@[j as int]));
                    saw = true;
                }
            }
            proof {
                let slots = self.slots@;
                if skipped_before(slots, j + 1) && !is_skipped(slots[j as int]) {
                    let k = choose|k: int|
                        0 <= k < j + 1 && k < slots.len() && is_skipped(#[trigger] slots[k]);
                    assert(k < j);
                }
                if makes_trials(slots, j + 1) {
                    let k = choose|k: int|
                        0 <= k < j + 1 && k < slots.len() && (#[trigger] slots[k]) is Some
                            && slots[k]->0.mode is Skip && skipped_before(slots, k);
                    assert(k < j);
                }
            }
            j += 1;
        }
        false
    }

    /// A candidate on trial was tested against the hero.
    fn on_tried(&mut self, job: Job, conflicts: bool)
        requires
            old(self)@.wf(),
            old(self)@.job_wf(job),
            job.trial is Some,
        ensures
            final(self)@ == old(self)@.tried(job, conflicts),
    {
        let trial = match job.trial {
            Some(trial) => trial,
            None => vstd::pervasive::unreached(),
        };
        if conflicts {
            self.relabel(job.idx, Instruction::CertainConflict);
            self.seek(job.idx + 1);
        } else {
            self.relabel(job.idx, Instruction::Merge);
            self.adopt(trial.base, trial.merged, job);
        }
    }

    /// Take the answer to the pending question and go on to the next one, or
    /// to the end. An answer of another kind than the question asks for
    /// fails the merge. Once the merge has ended, nothing changes any more.
    pub fn advance(&mut self, reply: Reply)
        requires
            old(self)@.wf(),
        ensures
            final(self)@ == old(self)@.next(reply),
            final(self)@.wf(),
    {
        proof {
            lemma_next(self@, reply);
        }
        let phase = self.phase;
        match (phase, reply) {
            (Phase::Done { .. }, _) => {},
            (Phase::Failed(_), _) => {},
            (Phase::Resolving, Reply::Resolved(found)) => self.on_resolved(found),
            (Phase::TipTree { idx }, Reply::Tree(tree)) => self.on_tip_tree(idx, tree),
            (Phase::BaseSegment(job), Reply::MergeBase(Some(base))) => {
                self.phase = Phase::BaseCommit(job, base);
            },
            (Phase::BaseSegment(job), Reply::MergeBase(None)) => {
                self.phase = Phase::Failed(
                    MergeError::NoMergeBase { left: job.left, right: job.right },
                );
            },
            (Phase::BaseCommit(job, base), Reply::Commit(Some(commit))) => {
                self.phase = Phase::BaseTree(job, base, commit);
            },
            (Phase::BaseCommit(job, base), Reply::Commit(None)) => {
                self.phase = Phase::Failed(
                    MergeError::EmptyBase { base, left: job.left, right: job.right },
                );
            },
            (Phase::BaseTree(job, base, _), Reply::Tree(tree)) => {
                self.phase = Phase::Merging(job, base, tree);
            },
            (Phase::Merging(job, base, _), Reply::Merged(result)) => {
                if job.trial.is_some() {
                    self.phase = Phase::Failed(MergeError::UnexpectedReply);
                } else {
                    match result {
                        TreeMerge::Conflicted => self.on_conflicted(job),
                        TreeMerge::Clean(tree) => self.on_merged_cleanly(job, base, tree),
                    }
                }
            },
            (Phase::Merging(job, _, _), Reply::Tested { conflicts }) => {
                if job.trial.is_some() {
                    self.on_tried(job, conflicts);
                } else {
                    self.phase = Phase::Failed(MergeError::UnexpectedReply);
                }
            },
            (Phase::Writing { .. }, Reply::Written(id)) => {
                self.phase = Phase::Done { id };
            },
            _ => {
                self.phase = Phase::Failed(MergeError::UnexpectedReply);
            },
        }
    }

    /// The stacks that are merged as things stand, in the order of the
    /// input.
    fn merged_stacks(&self) -> (stacks: Vec<Stack>)
        requires
            self.slots@.len() <= self.names@.len(),
        ensures
            stack_views(stacks@) == self@.stacks(),
    {
        let ghost keep = |i: int| is_active(self@.slots[i]);
        let mut stacks: Vec<Stack> = Vec::new();
        let mut i: usize = 0;
        while i < self.slots.len()
            invariant
                i <= self.slots@.len() <= self.names@.len(),
                keep == |i: int| is_active(self@.slots[i]),
                stacks@.len() == picked(i as int, keep).len(),
                forall|k: int|
                    0 <= k < stacks@.len() ==> (#[trigger] stacks@[k])@ == self@.stack_at(
                        picked(i as int, keep)[k],
                    ),
            decreases self.slots@.len() - i,
        {
            if let Some(tip) = &self.slots[i] {
                if !tip.mode.should_skip() {
                    stacks.push(Stack { tip: tip.commit_id, name: Some(self.names[i].shorten()) });
                }
            }
            i += 1;
        }
        assert(stack_views(stacks@) =~= self@.stacks());
        stacks
    }

    /// The stacks that are left out as things stand, in the order of the
    /// input.
    fn left_out_stacks(&self) -> (stacks: Vec<ConflictingStack>)
        requires
            self.slots@.len() <= self.names@.len(),
        ensures
            stacks@.len() == self@.conflicting_stacks().len(),
            forall|k: int| 0 <= k < stacks@.len() ==> (#[trigger] stacks@[k])@ == self@.conflicting_stacks()[k],
    {
        let ghost keep = |i: int| is_skipped(self@.slots[i]);
        let mut stacks: Vec<ConflictingStack> = Vec::new();
        let mut i: usize = 0;
        while i < self.slots.len()
            invariant
                i <= self.slots@.len() <= self.names@.len(),
                keep == |i: int| is_skipped(self@.slots[i]),
                stacks@.len() == picked(i as int, keep).len(),
                forall|k: int|
                    #![trigger stacks@[k]]
                    0 <= k < stacks@.len() ==> stacks@[k].tip == self.slots@[picked(
                        i as int,
                        keep,
                    )[k]]->0.commit_id && stacks@[k].ref_name@ == self.names@[picked(
                        i as int,
                        keep,
                    )[k]]@,
            decreases self.slots@.len() - i,
        {
            proof {
                lemma_picked(i as int, keep);
                lemma_picked(i + 1, keep);
            }
            if let Some(tip) = &self.slots[i] {
                if tip.mode.should_skip() {
                    stacks.push(
                        ConflictingStack { tip: tip.commit_id, ref_name: self.names[i].clone() },
                    );
                }
            }
            i += 1;
        }
        proof {
            lemma_picked(self.slots@.len() as int, keep);
        }
        stacks
    }

    /// The references that the graph does not hold, in the order of the
    /// input.
    fn unresolved_names(&self) -> (names: Vec<RefName>)
        requires
            self.slots@.len() <= self.names@.len(),
        ensures
            name_views(names@) == self@.missing_stacks(),
    {
        let ghost keep = |i: int| self@.slots[i] is None;
        let mut names: Vec<RefName> = Vec::new();
        let mut i: usize = 0;
        while i < self.slots.len()
            invariant
                i <= self.slots@.len() <= self.names@.len(),
                keep == |i: int| self@.slots[i] is None,
                names@.len() == picked(i as int, keep).len(),
                forall|k: int|
                    0 <= k < names@.len() ==> (#[trigger] names@[k])@ == self.names@[picked(
                        i as int,
                        keep,
                    )[k]]@,
            decreases self.slots@.len() - i,
        {
            proof {
                lemma_picked(i as int, keep);
                lemma_picked(i + 1, keep);
            }
            if self.slots[i].is_none() {
                names.push(self.names[i].clone());
            }
            i += 1;
        }
        proof {
            lemma_picked(self.slots@.len() as int, keep);
        }
        assert(name_views(names@) =~= self@.missing_stacks());
        names
    }

    /// The workspace commit over the stacks that are merged as things stand,
    /// with the given tree.
    fn workspace_commit(&self, tree: ObjectId) -> (commit: Commit)
        requires
            self.slots@.len() <= self.names@.len(),
        ensures
            commit@ == self@.commit(tree),
    {
        let stacks = self.merged_stacks();
        let mut commit = WorkspaceCommit::new_from_stacks(
            &stacks,
            self.settings.object_hash,
            self.settings.time,
        );
        commit.tree = tree;
        WorkspaceCommit::fixup_times(&mut commit, self.settings.committer_time);
        commit
    }

    /// Where the merge stands: the question whose answer `advance` is to be
    /// given, or how the merge has ended.
    pub fn pending(&self) -> (step: Step)
        requires
            self@.wf(),
        ensures
            step@ == self@.pending(),
    {
        match self.phase {
            Phase::Resolving => Step::Ask(
                Query::ResolveRef(self.names[self.slots.len()].clone()),
            ),
            Phase::TipTree { idx } => match self.slots[idx] {
                Some(tip) => Step::Ask(Query::PeelToTree(tip.commit_id)),
                None => vstd::pervasive::unreached(),
            },
            Phase::BaseSegment(job) => Step::Ask(
                Query::FirstMergeBase { left: job.left, right: job.right },
            ),
            Phase::BaseCommit(_, base) => Step::Ask(Query::TipSkipEmpty(base)),
            Phase::BaseTree(_, _, commit) => Step::Ask(Query::PeelToTree(commit)),
            Phase::Merging(job, _, base_tree) => Step::Ask(
                if job.trial.is_some() {
                    Query::TestMerge { base: base_tree, ours: job.ours, theirs: job.theirs }
                } else {
                    Query::MergeTrees { base: base_tree, ours: job.ours, theirs: job.theirs }
                },
            ),
            Phase::Writing { tree } => Step::Ask(Query::WriteCommit(self.workspace_commit(tree))),
            Phase::Done { id } => {
                let outcome = Outcome {
                    workspace_commit_id: id,
                    stacks: self.merged_stacks(),
                    missing_stacks: self.unresolved_names(),
                    conflicting_stacks: self.left_out_stacks(),
                };
                assert(outcome@.conflicting_stacks =~= self@.conflicting_stacks());
                Step::Done(outcome)
            },
            Phase::Failed(error) => Step::Failed(error),
        }
    }
}

} // verus!

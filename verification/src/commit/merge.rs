//! Merging the stacks of a workspace into one tree and one commit.
//!
//! The merge is a dialogue. The engine asks one question at a time of the
//! commit graph, the tree merge or the object store, and decides from the
//! answer what to ask next, until it has an outcome or has failed.

pub mod engine;
pub mod laws;
pub mod model;
pub mod steps;

use crate::commit::{Commit, CommitView, Stack, StackView, Time, WorkspaceCommit};
use crate::commit::merge::engine::{init_of, merge_names, name_view, Merge};
use crate::commit::merge::laws::{lemma_outcome_sorts, lemma_success_has_stacks, sorts};
use crate::commit::merge::model::State;
use crate::commit::merge::steps::{lemma_after, lemma_next};
use crate::id::{HashKind, ObjectId, SegmentIndex};
use crate::refname::RefName;
use vstd::prelude::*;

verus! {

/// How a stack of the workspace relates to the workspace commit.
#[derive(Clone, Copy, Debug, PartialEq, Eq, Structural)]
pub enum WorkspaceCommitRelation {
    /// The stack is merged into the workspace commit.
    Merged,
    /// The stack is a parent of the workspace commit while its tree is left
    /// out. Not supported yet.
    UnmergedTree,
    /// The stack is not part of the workspace commit.
    Outside,
}

/// A stack as the workspace metadata lists it.
#[derive(Debug)]
pub struct WorkspaceStack {
    /// The names of its branches, the top-most first.
    pub branches: Vec<RefName>,
    /// How the stack relates to the workspace commit.
    pub workspacecommit_relation: WorkspaceCommitRelation,
}

impl WorkspaceStack {
    /// The name of the top-most branch, by which the stack is found in the
    /// graph.
    pub open spec fn top(&self) -> Option<Seq<u8>> {
        if self.branches@.len() > 0 {
            Some(self.branches@[0]@)
        } else {
            None
        }
    }
}

/// A stack that could not be merged.
#[derive(Clone, Debug)]
pub struct ConflictingStack {
    /// The tip that could not be merged in.
    pub tip: ObjectId,
    /// The name of the reference that was to be merged; it pointed to `tip`.
    pub ref_name: RefName,
}

/// What a `ConflictingStack` holds, as mathematical values.
pub struct ConflictingStackView {
    pub tip: ObjectId,
    pub ref_name: Seq<u8>,
}

impl View for ConflictingStack {
    type V = ConflictingStackView;

    open spec fn view(&self) -> ConflictingStackView {
        ConflictingStackView { tip: self.tip, ref_name: self.ref_name@ }
    }
}

/// The outcome of a workspace merge.
#[derive(Debug)]
pub struct Outcome {
    /// The workspace commit, as written to the object store.
    pub workspace_commit_id: ObjectId,
    /// The stacks that were merged, one for each parent of the workspace
    /// commit.
    pub stacks: Vec<Stack>,
    /// The stacks of the input whose references were not found in the graph.
    pub missing_stacks: Vec<RefName>,
    /// The stacks that could not be merged, in order of occurrence.
    pub conflicting_stacks: Vec<ConflictingStack>,
}

/// What an `Outcome` holds, as mathematical values.
pub struct OutcomeView {
    pub workspace_commit_id: ObjectId,
    pub stacks: Seq<StackView>,
    pub missing_stacks: Seq<Seq<u8>>,
    pub conflicting_stacks: Seq<ConflictingStackView>,
}

impl View for Outcome {
    type V = OutcomeView;

    open spec fn view(&self) -> OutcomeView {
        OutcomeView {
            workspace_commit_id: self.workspace_commit_id,
            stacks: Seq::new(self.stacks@.len(), |i: int| self.stacks@[i]@),
            missing_stacks: Seq::new(self.missing_stacks@.len(), |i: int| self.missing_stacks@[i]@),
            conflicting_stacks: Seq::new(
                self.conflicting_stacks@.len(),
                |i: int| self.conflicting_stacks@[i]@,
            ),
        }
    }
}

impl Outcome {
    /// Whether the outcome is short of perfect: conflicts left some stacks
    /// unmerged.
    pub fn has_conflicts(&self) -> (conflicts: bool)
        ensures
            conflicts == (self@.conflicting_stacks.len() > 0),
    {
        self.conflicting_stacks.len() > 0
    }
}

/// What the repository contributes to the workspace commit besides the
/// stacks and the tree.
#[derive(Clone, Copy, Debug, PartialEq, Eq, Structural)]
pub struct CommitSettings {
    /// The hash function of the repository.
    pub object_hash: HashKind,
    /// The time of the commit: the overriding one if there is any, else now.
    pub time: Time,
    /// The time that the repository configures for its committer, if any. It
    /// takes the place of `time`.
    pub committer_time: Option<Time>,
}

impl CommitSettings {
    /// The time that both signatures of the workspace commit carry.
    pub open spec fn signing_time(self) -> Time {
        match self.committer_time {
            Some(time) => time,
            None => self.time,
        }
    }
}

/// The result of merging two trees over a base.
#[derive(Clone, Copy, Debug, PartialEq, Eq)]
pub enum TreeMerge {
    /// The trees merged without conflict into this tree.
    Clean(ObjectId),
    /// Unresolved conflicts remain.
    Conflicted,
}

/// A question that the engine asks of its collaborators.
#[derive(Debug)]
pub enum Query {
    /// Graph: where is this reference, and which commit is its tip?
    ResolveRef(RefName),
    /// Object store: which tree does this commit record?
    PeelToTree(ObjectId),
    /// Graph: what is the first merge base of these two positions?
    FirstMergeBase { left: SegmentIndex, right: SegmentIndex },
    /// Graph: which is the nearest commit at this position?
    TipSkipEmpty(SegmentIndex),
    /// Tree merge: what comes of merging `ours` and `theirs` over `base`,
    /// stopping at the first conflict?
    MergeTrees { base: ObjectId, ours: ObjectId, theirs: ObjectId },
    /// Tree merge: do `ours` and `theirs` conflict over `base`? The merged
    /// tree is of no interest.
    TestMerge { base: ObjectId, ours: ObjectId, theirs: ObjectId },
    /// Object store: write this commit; what is its id?
    WriteCommit(Commit),
}

/// What a `Query` holds, as mathematical values.
pub enum QueryView {
    ResolveRef(Seq<u8>),
    PeelToTree(ObjectId),
    FirstMergeBase { left: SegmentIndex, right: SegmentIndex },
    TipSkipEmpty(SegmentIndex),
    MergeTrees { base: ObjectId, ours: ObjectId, theirs: ObjectId },
    TestMerge { base: ObjectId, ours: ObjectId, theirs: ObjectId },
    WriteCommit(CommitView),
}

impl View for Query {
    type V = QueryView;

    open spec fn view(&self) -> QueryView {
        match self {
            Query::ResolveRef(name) => QueryView::ResolveRef(name@),
            Query::PeelToTree(commit) => QueryView::PeelToTree(*commit),
            Query::FirstMergeBase { left, right } => QueryView::FirstMergeBase {
                left: *left,
                right: *right,
            },
            Query::TipSkipEmpty(at) => QueryView::TipSkipEmpty(*at),
            Query::MergeTrees { base, ours, theirs } => QueryView::MergeTrees {
                base: *base,
                ours: *ours,
                theirs: *theirs,
            },
            Query::TestMerge { base, ours, theirs } => QueryView::TestMerge {
                base: *base,
                ours: *ours,
                theirs: *theirs,
            },
            Query::WriteCommit(commit) => QueryView::WriteCommit(commit@),
        }
    }
}

/// The answer to a `Query`, each kind of question having its own kind of
/// answer.
#[derive(Clone, Copy, Debug, PartialEq, Eq)]
pub enum Reply {
    /// To `ResolveRef`: the position and the tip, or nothing if the graph
    /// does not hold the reference.
    Resolved(Option<(SegmentIndex, ObjectId)>),
    /// To `PeelToTree`: the tree.
    Tree(ObjectId),
    /// To `FirstMergeBase`: the position of the base, if there is one.
    MergeBase(Option<SegmentIndex>),
    /// To `TipSkipEmpty`: the commit, if one can be reached.
    Commit(Option<ObjectId>),
    /// To `MergeTrees`: the merge.
    Merged(TreeMerge),
    /// To `TestMerge`: whether unresolved conflicts remain.
    Tested { conflicts: bool },
    /// To `WriteCommit`: the id of the commit.
    Written(ObjectId),
}

/// Why a merge failed. Each of these is an inconsistency that correct
/// collaborators never cause, or an input that is not supported.
#[derive(Clone, Copy, Debug, PartialEq, Eq, Structural)]
pub enum MergeError {
    /// The stack at this position of the input is an unmerged tree.
    UnmergedTree { stack: usize },
    /// The graph has no merge base between two positions that it holds.
    NoMergeBase { left: SegmentIndex, right: SegmentIndex },
    /// No commit can be reached from the base between the two positions.
    EmptyBase { base: SegmentIndex, left: SegmentIndex, right: SegmentIndex },
    /// The candidate at this position conflicted while on trial, though
    /// nothing can conflict before the hero is merged in.
    TrialConflict { stack: usize },
    /// A candidate was still on trial when trials were to begin.
    UnconcludedTrial,
    /// Trials were to run a second time.
    TrialsRanTwice,
    /// No candidate is left to merge.
    NothingToMerge,
    /// The answer is not one to the question that was asked.
    UnexpectedReply,
}

/// Where the merge stands.
#[derive(Debug)]
pub enum Step {
    /// The question to which the engine needs the answer.
    Ask(Query),
    /// The merge is done.
    Done(Outcome),
    /// The merge has failed.
    Failed(MergeError),
}

/// What a `Step` holds, as mathematical values.
pub enum StepView {
    Ask(QueryView),
    Done(OutcomeView),
    Failed(MergeError),
}

impl View for Step {
    type V = StepView;

    open spec fn view(&self) -> StepView {
        match self {
            Step::Ask(query) => StepView::Ask(query@),
            Step::Done(outcome) => StepView::Done(outcome@),
            Step::Failed(error) => StepView::Failed(*error),
        }
    }
}

/// Why a merge gave no outcome.
#[derive(Debug)]
pub enum Failure<E> {
    /// The merge itself has failed.
    Merge(MergeError),
    /// A collaborator could not answer.
    Collaborator(E),
}

/// Whether `ask` may give this reply to the question that is pending in a
/// state.
pub open spec fn may_answer<E, F: Fn(Query) -> Result<Reply, E>>(ask: F, s: State, reply: Reply) -> bool {
    exists|query: Query| s.pending() == StepView::Ask(query@) && ask.ensures((query,), Ok(reply))
}

/// Whether each of the replies is one that `ask` may give to the question
/// that is pending when the reply is given.
pub open spec fn given_by<E, F: Fn(Query) -> Result<Reply, E>>(ask: F, s: State, replies: Seq<Reply>) -> bool {
    forall|i: int|
        0 <= i < replies.len() ==> #[trigger] may_answer(ask, s.after(replies.take(i)), replies[i])
}

/// Whether a merge that begins in `begin` and gets these replies from `ask`
/// ends with this result: with the outcome or the failure of the state that
/// it has reached, or with the failure of `ask` on the question that is
/// pending there.
pub open spec fn ends_with<E, F: Fn(Query) -> Result<Reply, E>>(
    ask: F,
    begin: State,
    replies: Seq<Reply>,
    result: Result<Outcome, Failure<E>>,
) -> bool {
    let end = begin.after(replies);
    &&& given_by(ask, begin, replies)
    &&& match result {
        Ok(outcome) => end.pending() == StepView::Done(outcome@),
        Err(Failure::Merge(error)) => end.pending() == StepView::Failed(error),
        Err(Failure::Collaborator(error)) => exists|query: Query|
            end.pending() == StepView::Ask(query@) && ask.ensures((query,), Err(error)),
    }
}

/// One more reply that `ask` gave to the pending question leaves the
/// replies such as `ask` gives, and leads to the state that follows on it.
proof fn lemma_one_more_reply<E, F: Fn(Query) -> Result<Reply, E>>(
    ask: F,
    begin: State,
    replies: Seq<Reply>,
    query: Query,
    reply: Reply,
)
    requires
        given_by(ask, begin, replies),
        begin.after(replies).pending() == StepView::Ask(query@),
        ask.ensures((query,), Ok(reply)),
    ensures
        given_by(ask, begin, replies.push(reply)),
        begin.after(replies.push(reply)) == begin.after(replies).next(reply),
{
    let longer = replies.push(reply);
    assert(longer.drop_last() =~= replies);
    assert(longer.last() == reply);
    assert forall|i: int| 0 <= i < longer.len() implies #[trigger] may_answer(
        ask,
        begin.after(longer.take(i)),
        longer[i],
    ) by {
        if i < replies.len() {
            assert(longer.take(i) =~= replies.take(i));
            assert(may_answer(ask, begin.after(replies.take(i)), replies[i]));
        } else {
            assert(longer.take(i) =~= replies);
        }
    }
}

impl WorkspaceCommit {
    /// Merge the stacks that the workspace metadata lists into a new
    /// workspace commit. `ask` puts the questions of the merge to the commit
    /// graph, the tree merge and the object store.
    ///
    /// A stack whose reference the graph does not hold is reported as
    /// missing, and one that conflicts as conflicting: neither fails the
    /// merge. `hero_stack` names a stack that is to be merged even if others
    /// have to stay out for it.
    ///
    /// The result is that of the state machine on the answers that `ask`
    /// gave: its outcome, its failure, or the failure of `ask` on the
    /// question that was pending. An outcome has at least one merged stack,
    /// and it sorts each reference of the stacks that are listed as merged
    /// into one of its three parts.
    #[verifier::rlimit(30)]
    pub fn from_new_merge_with_metadata<E, F: Fn(Query) -> Result<Reply, E>>(
        stacks: &Vec<WorkspaceStack>,
        hero_stack: Option<&RefName>,
        settings: CommitSettings,
        ask: F,
    ) -> (result: Result<Outcome, Failure<E>>)
        requires
            forall|query: Query| ask.requires((query,)),
        ensures
            exists|replies: Seq<Reply>|
                #[trigger] ends_with(
                    ask,
                    init_of(stacks@, name_view(hero_stack), settings),
                    replies,
                    result,
                ),
            result matches Ok(outcome) ==> outcome@.stacks.len() > 0 && sorts(
                merge_names(stacks@),
                outcome@,
            ),
    {
        let mut merge = Merge::new(stacks, hero_stack, settings);
        let ghost begin = merge@;
        let ghost mut replies = Seq::<Reply>::empty();
        loop
            invariant
                merge@.wf(),
                merge@ == begin.after(replies),
                given_by(ask, begin, replies),
                forall|query: Query| ask.requires((query,)),
                begin == init_of(stacks@, name_view(hero_stack), settings),
                begin.wf(),
            decreases merge@.rank().0, merge@.rank().1, merge@.rank().2,
        {
            match merge.pending() {
                Step::Ask(query) => {
                    let ghost asked = query;
                    match ask(query) {
                        Ok(reply) => {
                            proof {
                                lemma_next(merge@, reply);
                                lemma_one_more_reply(ask, begin, replies, asked, reply);
                                replies = replies.push(reply);
                            }
                            merge.advance(reply);
                        },
                        Err(error) => {
                            let result = Err(Failure::Collaborator(error));
                            assert(ends_with(ask, begin, replies, result));
                            return result;
                        },
                    }
                },
                Step::Done(outcome) => {
                    proof {
                        lemma_after(begin, replies);
                        lemma_success_has_stacks(merge@);
                        lemma_outcome_sorts(merge@);
                    }
                    let result = Ok(outcome);
                    assert(ends_with(ask, begin, replies, result));
                    return result;
                },
                Step::Failed(error) => {
                    let result = Err(Failure::Merge(error));
                    assert(ends_with(ask, begin, replies, result));
                    return result;
                },
            }
        }
    }
}

} // verus!

//! What every step of a merge keeps: the states stay well formed, and each
//! reply brings the merge nearer to its end.

use crate::commit::merge::{Reply, TreeMerge};
use crate::commit::merge::model::{
    any_active, attribute, count_active, is_active, makes_trials, next_active, on_trial,
    prev_active, skipped_before, trial_before, Instruction, Job, Phase, Running, State, Tip,
};
use crate::id::{ObjectId, SegmentIndex};
use vstd::prelude::*;

verus! {

/// `next_active` finds the first active candidate from `from` on.
pub proof fn lemma_next_active(slots: Seq<Option<Tip>>, from: int)
    requires
        0 <= from <= slots.len(),
    ensures
        from <= next_active(slots, from) <= slots.len(),
        next_active(slots, from) < slots.len() ==> is_active(slots[next_active(slots, from)]),
        forall|j: int| from <= j < next_active(slots, from) ==> !is_active(#[trigger] slots[j]),
    decreases slots.len() - from,
{
    if from < slots.len() && !is_active(slots[from]) {
        lemma_next_active(slots, from + 1);
    }
}

/// `prev_active` finds the last active candidate before `before`.
pub proof fn lemma_prev_active(slots: Seq<Option<Tip>>, before: int)
    requires
        0 <= before <= slots.len(),
    ensures
        match prev_active(slots, before) {
            Some(j) => 0 <= j < before && is_active(slots[j]) && forall|k: int|
                j < k < before ==> !is_active(#[trigger] slots[k]),
            None => forall|k: int| 0 <= k < before ==> !is_active(#[trigger] slots[k]),
        },
    decreases before,
{
    if before > 0 && !is_active(slots[before - 1]) {
        lemma_prev_active(slots, before - 1);
    }
}

/// Slots that are active in the same places have as many active candidates.
pub proof fn lemma_count_active_same(a: Seq<Option<Tip>>, b: Seq<Option<Tip>>, n: int)
    requires
        a.len() == b.len(),
        0 <= n <= a.len(),
        forall|i: int| 0 <= i < n ==> is_active(#[trigger] a[i]) == is_active(b[i]),
    ensures
        count_active(a, n) == count_active(b, n),
    decreases n,
{
    if n > 0 {
        lemma_count_active_same(a, b, n - 1);
    }
}

/// Taking one active candidate out of the merge lowers the number of active
/// candidates by one.
pub proof fn lemma_count_active_less(slots: Seq<Option<Tip>>, i: int, slot: Option<Tip>, n: int)
    requires
        0 <= i < slots.len(),
        0 <= n <= slots.len(),
        is_active(slots[i]),
        !is_active(slot),
    ensures
        count_active(slots.update(i, slot), n) + (if i < n {
            1nat
        } else {
            0nat
        }) == count_active(slots, n),
    decreases n,
{
    if n > 0 {
        lemma_count_active_less(slots, i, slot, n - 1);
    }
}

/// With no active candidate the count is zero, and the other way round.
pub proof fn lemma_count_active_none(slots: Seq<Option<Tip>>, n: int)
    requires
        0 <= n <= slots.len(),
    ensures
        count_active(slots, n) == 0 <==> forall|i: int| 0 <= i < n ==> !is_active(#[trigger] slots[i]),
    decreases n,
{
    if n > 0 {
        lemma_count_active_none(slots, n - 1);
    }
}

/// Whether three numbers come before three others, the first of each
/// counting most.
pub open spec fn precedes(a: (nat, nat, nat), b: (nat, nat, nat)) -> bool {
    a.0 < b.0 || (a.0 == b.0 && (a.1 < b.1 || (a.1 == b.1 && a.2 < b.2)))
}

/// What `seek` needs of a state, and what it keeps.
pub open spec fn passing(s: State) -> bool {
    &&& s.slots.len() == s.names.len() <= usize::MAX
    &&& s.hero is None ==> !s.ran_merge_trials && forall|i: int|
        0 <= i < s.slots.len() ==> !on_trial(#[trigger] s.slots[i]) && !((s.slots[i]) is Some
            && s.slots[i]->0.mode is CertainConflict)
}

/// The rank of a state in a pass that stands before the candidate at `from`.
pub open spec fn rank_before(s: State, from: int) -> (nat, nat, nat) {
    (
        if s.ran_merge_trials {
            0nat
        } else {
            1nat
        },
        count_active(s.slots, s.slots.len() as int),
        (2 + 9 * (s.slots.len() - from)) as nat,
    )
}

/// `seek` leads to a well-formed state that is no further from the end than
/// a pass that stands at `from`.
pub proof fn lemma_seek(s: State, from: int)
    requires
        passing(s),
        0 <= from <= s.slots.len(),
        s.taken_in(from),
    ensures
        s.seek(from).wf(),
        passing(s.seek(from)),
        s.seek(from).rank() == rank_before(s, from) || precedes(s.seek(from).rank(), rank_before(s, from)),
{
    lemma_next_active(s.slots, from);
    let idx = next_active(s.slots, from);
    if idx < s.slots.len() {
        let t = s.seek(from);
        assert(t.phase == Phase::TipTree { idx: idx as usize });
        assert(t.in_pass(idx));
    } else {
        if any_active(s.slots) {
            let j = choose|j: int| 0 <= j < s.slots.len() && is_active(#[trigger] s.slots[j]);
            assert(j < from);
        } else {
            lemma_count_active_none(s.slots, s.slots.len() as int);
        }
    }
}

/// Starting a pass leads to a well-formed state whose rank is that of a pass
/// at its start, or comes before it.
pub proof fn lemma_begin_pass(s: State)
    requires
        passing(s),
    ensures
        s.begin_pass().wf(),
        passing(s.begin_pass()),
        s.begin_pass().rank() == rank_before(s, 0) || precedes(s.begin_pass().rank(), rank_before(s, 0)),
{
    let t = State { running: Running::fresh(), ..s };
    lemma_seek(t, 0);
}

/// Relabelling an active candidate as left out keeps what `seek` needs and
/// lowers the number of active candidates by one.
pub proof fn lemma_relabel_out(s: State, i: int, mode: Instruction)
    requires
        passing(s),
        0 <= i < s.slots.len(),
        is_active(s.slots[i]),
        mode.skips(),
        mode is CertainConflict ==> s.hero is Some,
    ensures
        passing(s.relabel(i, mode)),
        count_active(s.relabel(i, mode).slots, s.slots.len() as int) + 1 == count_active(
            s.slots,
            s.slots.len() as int,
        ),
        forall|j: int|
            0 <= j < s.slots.len() && j != i ==> is_active(#[trigger] s.relabel(i, mode).slots[j])
                == is_active(s.slots[j]),
{
    let slot = Some(Tip { mode, ..s.slots[i]->0 });
    lemma_count_active_less(s.slots, i, slot, s.slots.len() as int);
}

/// The attribution leaves every candidate as active as it was if it puts
/// none on trial.
pub proof fn lemma_attribute(s: State, upto: int, tip: Tip, tree: ObjectId)
    requires
        passing(s),
        s.hero is Some,
        0 <= upto <= s.slots.len(),
    ensures
        passing(State { slots: attribute(s.slots, upto, tip.sidx, tree), ..s }),
        attribute(s.slots, upto, tip.sidx, tree).len() == s.slots.len(),
        forall|j: int|
            upto <= j < s.slots.len() ==> (#[trigger] attribute(s.slots, upto, tip.sidx, tree)[j])
                == s.slots[j],
        !makes_trials(s.slots, upto) ==> (forall|j: int|
            0 <= j < s.slots.len() ==> is_active(#[trigger] attribute(s.slots, upto, tip.sidx, tree)[j])
                == is_active(s.slots[j])),
{
    let a = attribute(s.slots, upto, tip.sidx, tree);
    if !makes_trials(s.slots, upto) {
        assert forall|j: int| 0 <= j < s.slots.len() implies is_active(#[trigger] a[j]) == is_active(
            s.slots[j],
        ) by {
            if j < upto && s.slots[j] is Some && s.slots[j]->0.mode is Skip {
                assert(!skipped_before(s.slots, j));
            }
        }
    }
}

/// Every reply leads from a well-formed state to a well-formed state, and,
/// until the merge has ended, to one that is nearer to the end. So a merge
/// cannot go on for ever.
pub proof fn lemma_next(s: State, reply: Reply)
    requires
        s.wf(),
    ensures
        s.next(reply).wf(),
        !s.ended() ==> precedes(s.next(reply).rank(), s.rank()),
        s.next(reply).names == s.names,
        s.next(reply).hero == s.hero,
        s.next(reply).settings == s.settings,
{
    let t = s.next(reply);
    let n = s.slots.len() as int;
    match (s.phase, reply) {
        (Phase::Done { .. }, _) => {},
        (Phase::Failed(_), _) => {},
        (Phase::Resolving, Reply::Resolved(found)) => {
            let slot = match found {
                Some((sidx, commit_id)) => Some(Tip { mode: Instruction::Merge, commit_id, sidx }),
                None => None,
            };
            let grown = State { slots: s.slots.push(slot), ..s };
            if grown.slots.len() >= grown.names.len() {
                lemma_begin_pass(grown);
            }
        },
        (Phase::TipTree { idx }, Reply::Tree(tree)) => {
            lemma_tip_tree(s, idx, tree);
        },
        (Phase::BaseSegment(job), Reply::MergeBase(_)) => {},
        (Phase::BaseCommit(job, base), Reply::Commit(_)) => {},
        (Phase::BaseTree(job, base, _), Reply::Tree(tree)) => {},
        (Phase::Merging(job, base, _), Reply::Merged(result)) => {
            if job.trial is None {
                match result {
                    TreeMerge::Conflicted => lemma_conflicted(s, job),
                    TreeMerge::Clean(tree) => lemma_merged_cleanly(s, job, base, tree),
                }
            }
        },
        (Phase::Merging(job, _, _), Reply::Tested { conflicts }) => {
            if job.trial is Some {
                lemma_tried(s, job, conflicts);
            }
        },
        (Phase::Writing { .. }, Reply::Written(id)) => {},
        _ => {},
    }
}

/// The step on the tree of a candidate.
proof fn lemma_tip_tree(s: State, idx: usize, tree: ObjectId)
    requires
        s.wf(),
        s.phase == (Phase::TipTree { idx }),
    ensures
        s.tip_tree(idx, tree).wf(),
        precedes(s.tip_tree(idx, tree).rank(), s.rank()),
        s.tip_tree(idx, tree).names == s.names,
        s.tip_tree(idx, tree).hero == s.hero,
        s.tip_tree(idx, tree).settings == s.settings,
{
    let tip = s.slots[idx as int]->0;
    match s.running.previous_tip {
        None => {
            let taken = State {
                running: Running { previous_tip: Some((tree, tip.sidx)), ..s.running },
                ..s
            };
            lemma_seek(taken, idx + 1);
        },
        Some(_) => {},
    }
}

/// What the steps that end a merge in the making have in common.
spec fn job_step(s: State, job: Job, t: State) -> bool {
    &&& t.wf()
    &&& precedes(t.rank(), s.rank())
    &&& t.names == s.names
    &&& t.hero == s.hero
    &&& t.settings == s.settings
}

/// The step that takes a candidate in.
proof fn lemma_adopted(s: State, base: SegmentIndex, tree: ObjectId, job: Job)
    requires
        passing(s),
        0 <= job.idx < s.slots.len(),
        is_active(s.slots[job.idx as int]),
    ensures
        s.adopted(base, tree, job).wf(),
        passing(s.adopted(base, tree, job)),
        s.adopted(base, tree, job).rank() == rank_before(s, job.idx + 1) || precedes(
            s.adopted(base, tree, job).rank(),
            rank_before(s, job.idx + 1),
        ),
        s.adopted(base, tree, job).names == s.names,
        s.adopted(base, tree, job).hero == s.hero,
        s.adopted(base, tree, job).settings == s.settings,
{
    let taken = State {
        running: Running::adopt(base, tree, job.this_tree, s.slots[job.idx as int]->0.sidx),
        ..s
    };
    assert(is_active(taken.slots[job.idx as int]));
    lemma_seek(taken, job.idx + 1);
}

/// The step on a conflict of a candidate with the running merge.
proof fn lemma_conflicted(s: State, job: Job)
    requires
        s.wf(),
        s.phase is Merging,
        s.phase->Merging_0 == job,
        job.trial is None,
    ensures
        job_step(s, job, s.conflicted(job)),
{
    let idx = job.idx as int;
    if s.slots[idx]->0.mode is MergeTrial {
    } else if s.is_hero(idx) {
        lemma_prev_active(s.slots, idx);
        let culprit = prev_active(s.slots, idx)->0;
        lemma_relabel_out(s, culprit, Instruction::Skip);
        lemma_begin_pass(s.relabel(culprit, Instruction::Skip));
    } else {
        lemma_relabel_out(s, idx, Instruction::Skip);
        let r = s.relabel(idx, Instruction::Skip);
        let j = choose|j: int| 0 <= j < idx && j < s.slots.len() && is_active(#[trigger] s.slots[j]);
        assert(is_active(r.slots[j]));
        lemma_seek(r, idx + 1);
    }
}

/// The step on a clean merge of a candidate into the running merge.
proof fn lemma_merged_cleanly(s: State, job: Job, base: SegmentIndex, tree: ObjectId)
    requires
        s.wf(),
        s.phase is Merging,
        s.phase->Merging_0 == job,
        job.trial is None,
    ensures
        job_step(s, job, s.merged_cleanly(job, base, tree)),
{
    let idx = job.idx as int;
    let tip = s.slots[idx]->0;
    let n = s.slots.len() as int;
    if s.is_hero(idx) {
        if trial_before(s.slots, idx) {
        } else {
            lemma_attribute(s, idx, tip, job.this_tree);
            let attributed = State { slots: attribute(s.slots, idx, tip.sidx, job.this_tree), ..s };
            if makes_trials(s.slots, idx) {
                if !s.ran_merge_trials {
                    lemma_begin_pass(State { ran_merge_trials: true, ..attributed });
                }
            } else {
                lemma_count_active_same(attributed.slots, s.slots, n);
                lemma_adopted(attributed, base, tree, job);
            }
        }
    } else {
        match tip.mode {
            Instruction::MergeTrial { hero_sidx, hero_tree_id } => {
                assert(on_trial(s.slots[idx]));
            },
            _ => {
                lemma_adopted(s, base, tree, job);
            },
        }
    }
}

/// The step on the test of a candidate on trial.
proof fn lemma_tried(s: State, job: Job, conflicts: bool)
    requires
        s.wf(),
        s.phase is Merging,
        s.phase->Merging_0 == job,
        job.trial is Some,
    ensures
        job_step(s, job, s.tried(job, conflicts)),
{
    let idx = job.idx as int;
    let n = s.slots.len() as int;
    if conflicts {
        lemma_relabel_out(s, idx, Instruction::CertainConflict);
        let r = s.relabel(idx, Instruction::CertainConflict);
        let j = choose|j: int| 0 <= j < idx && j < s.slots.len() && is_active(#[trigger] s.slots[j]);
        assert(is_active(r.slots[j]));
        lemma_seek(r, idx + 1);
    } else {
        let r = s.relabel(idx, Instruction::Merge);
        assert forall|i: int| 0 <= i < n implies is_active(#[trigger] r.slots[i]) == is_active(
            s.slots[i],
        ) by {}
        lemma_count_active_same(r.slots, s.slots, n);
        lemma_adopted(r, job.trial->0.base, job.trial->0.merged, job);
    }
}

/// Every state that a merge reaches from a well-formed one is well formed,
/// and the input stays what it was.
pub proof fn lemma_after(s: State, replies: Seq<Reply>)
    requires
        s.wf(),
    ensures
        s.after(replies).wf(),
        s.after(replies).names == s.names,
        s.after(replies).hero == s.hero,
        s.after(replies).settings == s.settings,
    decreases replies.len(),
{
    if replies.len() > 0 {
        lemma_after(s, replies.drop_last());
        lemma_next(s.after(replies.drop_last()), replies.last());
    }
}

/// The state in which a merge begins is well formed.
pub proof fn lemma_init(
    names: Seq<Seq<u8>>,
    hero: Option<Seq<u8>>,
    settings: crate::commit::merge::CommitSettings,
    unsupported: Option<usize>,
)
    requires
        names.len() <= usize::MAX,
    ensures
        State::init(names, hero, settings, unsupported).wf(),
{
}

} // verus!

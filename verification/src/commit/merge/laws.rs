//! What holds of every merge: it comes to an end, it merges something if it
//! succeeds, it sorts every reference of the input into exactly one part of
//! the outcome, it keeps the hero, it merges nobody untested, and it gives
//! the same again if nothing has changed.

use crate::commit::{workspace_commit, StackView};
use crate::commit::merge::{
    ends_with, given_by, may_answer, CommitSettings, Failure, MergeError, Outcome, OutcomeView,
    Query, QueryView, Reply, StepView, TreeMerge, WorkspaceStack,
};
use crate::commit::merge::engine::{merge_names, wants_merge};
use crate::commit::merge::model::{
    any_active, attribute, count_active, is_active, is_skipped, makes_trials, next_active,
    on_trial, prev_active, skipped_before, trial_before, with_mode, Instruction, Phase, Running,
    State, Tip,
};
use crate::commit::merge::steps::{
    lemma_after, lemma_init, lemma_next, lemma_next_active, lemma_prev_active, precedes,
};
use crate::id::{ObjectId, SegmentIndex};
use crate::pick::{first_from, lemma_first_from, lemma_picked, picked};
use crate::refname::short_name;
use vstd::prelude::*;

verus! {

/// The references that a merge is about are those of the stacks that are
/// listed as merged, and no others: stacks outside the workspace and stacks
/// without a branch take no part.
pub proof fn lemma_merge_names(stacks: Seq<WorkspaceStack>)
    ensures
        forall|name: Seq<u8>|
            #[trigger] merge_names(stacks).contains(name) <==> exists|i: int|
                0 <= i < stacks.len() && wants_merge(#[trigger] stacks[i]) && stacks[i].top()
                    == Some(name),
{
    let n = stacks.len() as int;
    let keep = |i: int| wants_merge(stacks[i]);
    let wanted = picked(n, keep);
    let names = merge_names(stacks);
    lemma_picked(n, keep);
    assert forall|name: Seq<u8>| #[trigger] names.contains(name) implies exists|i: int|
        0 <= i < stacks.len() && wants_merge(#[trigger] stacks[i]) && stacks[i].top() == Some(
            name,
        ) by {
        let k = choose|k: int| 0 <= k < names.len() && names[k] == name;
        assert(keep(wanted[k]));
        assert(wants_merge(stacks[wanted[k]]));
    }
    assert forall|name: Seq<u8>|
        (exists|i: int|
            0 <= i < stacks.len() && wants_merge(#[trigger] stacks[i]) && stacks[i].top() == Some(
                name,
            )) implies #[trigger] names.contains(name) by {
        let i = choose|i: int|
            0 <= i < stacks.len() && wants_merge(#[trigger] stacks[i]) && stacks[i].top() == Some(
                name,
            );
        assert(keep(i));
        assert(wanted.contains(i));
        let k = choose|k: int| 0 <= k < wanted.len() && wanted[k] == i;
        assert(names[k] == name);
    }
}

/// A merge that succeeds has merged at least one stack: a workspace commit
/// without parents is never made.
pub proof fn lemma_success_has_stacks(s: State)
    requires
        s.wf(),
        s.pending() is Done,
    ensures
        s.pending()->Done_0.stacks.len() > 0,
{
    let n = s.slots.len() as int;
    let keep = |i: int| is_active(s.slots[i]);
    let i = choose|i: int| 0 <= i < s.slots.len() && is_active(#[trigger] s.slots[i]);
    lemma_picked(n, keep);
    assert(keep(i));
    assert(picked(n, keep).contains(i));
}

/// Of the first `n` slots each is merged, left out or empty, so the three
/// kinds together are `n`.
pub proof fn lemma_picked_three(slots: Seq<Option<Tip>>, n: int)
    requires
        0 <= n <= slots.len(),
    ensures
        picked(n, |i: int| is_active(slots[i])).len() + picked(n, |i: int| is_skipped(slots[i])).len()
            + picked(n, |i: int| slots[i] is None).len() == n,
    decreases n,
{
    if n > 0 {
        lemma_picked_three(slots, n - 1);
    }
}

/// The references that the merged stacks of a state came from.
pub open spec fn merged_names(s: State) -> Seq<Seq<u8>> {
    Seq::new(s.merged().len(), |k: int| s.names[s.merged()[k]])
}

/// The references of the stacks that a state leaves out.
pub open spec fn conflicting_names(s: State) -> Seq<Seq<u8>> {
    Seq::new(s.conflicting_stacks().len(), |k: int| s.conflicting_stacks()[k].ref_name)
}

/// A merge that succeeds sorts every reference of its input into exactly
/// one part of the outcome: merged, in conflict, or missing from the graph.
/// Each part keeps the order of the input, a merged stack carries the short
/// form of its reference, and the three parts together hold the references
/// of the input and no others.
pub proof fn lemma_outcome_sorts_input(s: State)
    requires
        s.wf(),
        s.pending() is Done,
    ensures
        ({
            let outcome = s.pending()->Done_0;
            let n = s.names.len() as int;
            &&& outcome.stacks.len() + outcome.conflicting_stacks.len() + outcome.missing_stacks.len()
                == n
            &&& forall|i: int|
                0 <= i < n ==> (s.merged().contains(i) || s.conflicting().contains(i)
                    || s.missing().contains(i))
            &&& forall|i: int|
                !(s.merged().contains(i) && s.conflicting().contains(i)) && !(s.merged().contains(i)
                    && s.missing().contains(i)) && !(s.conflicting().contains(i)
                    && s.missing().contains(i))
            &&& forall|k: int|
                0 <= k < outcome.stacks.len() ==> 0 <= s.merged()[k] < n && (
                #[trigger] outcome.stacks[k]).name == Some(
                    crate::refname::short_name(s.names[s.merged()[k]]),
                )
            &&& forall|k: int|
                0 <= k < outcome.conflicting_stacks.len() ==> 0 <= s.conflicting()[k] < n && (
                #[trigger] outcome.conflicting_stacks[k]).ref_name == s.names[s.conflicting()[k]]
            &&& forall|k: int|
                0 <= k < outcome.missing_stacks.len() ==> 0 <= s.missing()[k] < n && (
                #[trigger] outcome.missing_stacks[k]) == s.names[s.missing()[k]]
            &&& forall|k: int, l: int|
                0 <= k < l < s.merged().len() ==> (#[trigger] s.merged()[k]) < (
                #[trigger] s.merged()[l])
            &&& forall|k: int, l: int|
                0 <= k < l < s.conflicting().len() ==> (#[trigger] s.conflicting()[k]) < (
                #[trigger] s.conflicting()[l])
            &&& forall|k: int, l: int|
                0 <= k < l < s.missing().len() ==> (#[trigger] s.missing()[k]) < (
                #[trigger] s.missing()[l])
            &&& s.names.to_set() == merged_names(s).to_set() + conflicting_names(s).to_set()
                + outcome.missing_stacks.to_set()
        }),
{
    let n = s.names.len() as int;
    let a = |i: int| is_active(s.slots[i]);
    let b = |i: int| is_skipped(s.slots[i]);
    let c = |i: int| s.slots[i] is None;
    lemma_picked(n, a);
    lemma_picked(n, b);
    lemma_picked(n, c);
    lemma_picked_three(s.slots, n);
    let outcome = s.pending()->Done_0;
    let parts = merged_names(s).to_set() + conflicting_names(s).to_set()
        + outcome.missing_stacks.to_set();
    assert forall|name: Seq<u8>| s.names.to_set().contains(name) implies parts.contains(name) by {
        assert(s.names.contains(name));
        let i = choose|i: int| 0 <= i < s.names.len() && s.names[i] == name;
        if a(i) {
            assert(s.merged().contains(i));
            let k = choose|k: int| 0 <= k < s.merged().len() && s.merged()[k] == i;
            assert(merged_names(s)[k] == name);
            assert(merged_names(s).contains(name));
        } else if b(i) {
            assert(s.conflicting().contains(i));
            let k = choose|k: int| 0 <= k < s.conflicting().len() && s.conflicting()[k] == i;
            assert(conflicting_names(s)[k] == name);
            assert(conflicting_names(s).contains(name));
        } else {
            assert(c(i));
            assert(s.missing().contains(i));
            let k = choose|k: int| 0 <= k < s.missing().len() && s.missing()[k] == i;
            assert(outcome.missing_stacks[k] == name);
            assert(outcome.missing_stacks.contains(name));
        }
    }
    assert forall|name: Seq<u8>| parts.contains(name) implies s.names.to_set().contains(name) by {
        if merged_names(s).to_set().contains(name) {
            assert(merged_names(s).contains(name));
            let k = choose|k: int| 0 <= k < merged_names(s).len() && merged_names(s)[k] == name;
            assert(s.names[s.merged()[k]] == name);
            assert(s.names.contains(name));
        } else if conflicting_names(s).to_set().contains(name) {
            assert(conflicting_names(s).contains(name));
            let k = choose|k: int|
                0 <= k < conflicting_names(s).len() && conflicting_names(s)[k] == name;
            assert(s.names[s.conflicting()[k]] == name);
            assert(s.names.contains(name));
        } else {
            assert(outcome.missing_stacks.contains(name));
            let k = choose|k: int|
                0 <= k < outcome.missing_stacks.len() && outcome.missing_stacks[k] == name;
            assert(s.names[s.missing()[k]] == name);
            assert(s.names.contains(name));
        }
    }
    assert(s.names.to_set() =~= parts);
}

/// Whether the positions of a part are below `n` and rise.
pub open spec fn rising(part: Seq<int>, n: int) -> bool {
    &&& forall|k: int| 0 <= k < part.len() ==> 0 <= #[trigger] part[k] < n
    &&& forall|k: int, l: int| 0 <= k < l < part.len() ==> #[trigger] part[k] < #[trigger] part[l]
}

/// Whether an outcome sorts the references `names` into its three parts by
/// the given positions: each position is in one part and in one only, each
/// part keeps the order of the references, a merged stack carries the short
/// form of its reference, and a stack in conflict or missing its reference.
pub open spec fn sorted_by(
    names: Seq<Seq<u8>>,
    outcome: OutcomeView,
    merged: Seq<int>,
    conflicting: Seq<int>,
    missing: Seq<int>,
) -> bool {
    let n = names.len() as int;
    &&& rising(merged, n) && rising(conflicting, n) && rising(missing, n)
    &&& merged.len() + conflicting.len() + missing.len() == n
    &&& forall|i: int|
        0 <= i < n ==> merged.contains(i) || conflicting.contains(i) || missing.contains(i)
    &&& forall|i: int|
        !(merged.contains(i) && conflicting.contains(i)) && !(merged.contains(i)
            && missing.contains(i)) && !(conflicting.contains(i) && missing.contains(i))
    &&& outcome.stacks.len() == merged.len()
    &&& forall|k: int|
        0 <= k < merged.len() ==> (#[trigger] outcome.stacks[k]).name == Some(
            short_name(names[merged[k]]),
        )
    &&& outcome.conflicting_stacks.len() == conflicting.len()
    &&& forall|k: int|
        0 <= k < conflicting.len() ==> (#[trigger] outcome.conflicting_stacks[k]).ref_name
            == names[conflicting[k]]
    &&& outcome.missing_stacks.len() == missing.len()
    &&& forall|k: int|
        0 <= k < missing.len() ==> (#[trigger] outcome.missing_stacks[k]) == names[missing[k]]
}

/// Whether an outcome sorts the references `names` into its three parts:
/// merged, in conflict, and missing from the graph.
pub open spec fn sorts(names: Seq<Seq<u8>>, outcome: OutcomeView) -> bool {
    exists|merged: Seq<int>, conflicting: Seq<int>, missing: Seq<int>|
        #[trigger] sorted_by(names, outcome, merged, conflicting, missing)
}

/// The outcome of a merge that succeeds sorts the references of the merge
/// into its three parts.
pub proof fn lemma_outcome_sorts(s: State)
    requires
        s.wf(),
        s.pending() is Done,
    ensures
        sorts(s.names, s.pending()->Done_0),
{
    lemma_outcome_sorts_input(s);
    let n = s.slots.len() as int;
    lemma_picked(n, |i: int| is_active(s.slots[i]));
    lemma_picked(n, |i: int| is_skipped(s.slots[i]));
    lemma_picked(n, |i: int| s.slots[i] is None);
    assert(sorted_by(s.names, s.pending()->Done_0, s.merged(), s.conflicting(), s.missing()));
}

/// Without a hero there is no attribution: whatever the collaborators
/// answer, no candidate is put on trial or blamed for certain, and nothing
/// is ever tested against a hero.
pub proof fn lemma_no_hero_no_attribution(s: State, replies: Seq<Reply>)
    requires
        s.wf(),
        s.hero is None,
    ensures
        ({
            let t = s.after(replies);
            &&& !t.ran_merge_trials
            &&& forall|i: int|
                0 <= i < t.slots.len() && (#[trigger] t.slots[i]) is Some ==> t.slots[i]->0.mode is Merge
                    || t.slots[i]->0.mode is Skip
            &&& t.phase is Merging ==> t.phase->Merging_0.trial is None
            &&& !(t.pending() is Ask && t.pending()->Ask_0 is TestMerge)
        }),
{
    lemma_after(s, replies);
    let t = s.after(replies);
    assert forall|i: int| 0 <= i < t.slots.len() && (#[trigger] t.slots[i]) is Some implies t.slots[i]->0.mode is Merge
        || t.slots[i]->0.mode is Skip by {
        assert(!on_trial(t.slots[i]));
    }
}

/// Candidates are put on trial once at most. The mark that trials have run
/// is never taken back; it is set by one step only, the clean merge of the
/// hero that puts candidates on trial; and where that step comes again, the
/// merge fails.
pub proof fn lemma_trials_run_once(s: State, reply: Reply)
    requires
        s.wf(),
    ensures
        s.ran_merge_trials ==> s.next(reply).ran_merge_trials,
        !s.ran_merge_trials && s.next(reply).ran_merge_trials ==> s.phase is Merging && reply
            is Merged && reply->Merged_0 is Clean && s.is_hero(s.phase->Merging_0.idx as int)
            && makes_trials(s.slots, s.phase->Merging_0.idx as int),
        s.ran_merge_trials && s.phase is Merging && s.phase->Merging_0.trial is None && reply
            is Merged && reply->Merged_0 is Clean && s.is_hero(s.phase->Merging_0.idx as int)
            && !trial_before(s.slots, s.phase->Merging_0.idx as int) && makes_trials(
            s.slots,
            s.phase->Merging_0.idx as int,
        ) ==> s.next(reply).phase == Phase::Failed(MergeError::TrialsRanTwice),
{
    lemma_next(s, reply);
    match (s.phase, reply) {
        (Phase::Merging(job, base, _), Reply::Merged(TreeMerge::Conflicted)) => {
            let idx = job.idx as int;
            if job.trial is None && !(s.slots[idx]->0.mode is MergeTrial) && s.is_hero(idx) {
                lemma_prev_active(s.slots, idx);
            }
        },
        _ => {},
    }
}

/// Replies given one after the other are replies given in one go.
pub proof fn lemma_after_both(s: State, first: Seq<Reply>, then: Seq<Reply>)
    ensures
        s.after(first + then) == s.after(first).after(then),
    decreases then.len(),
{
    if then.len() == 0 {
        assert(first + then =~= first);
    } else {
        lemma_after_both(s, first, then.drop_last());
        assert((first + then).drop_last() =~= first + then.drop_last());
        assert((first + then).last() == then.last());
    }
}

/// Once a merge has ended, no reply changes anything.
pub proof fn lemma_ended_stays(s: State, replies: Seq<Reply>)
    requires
        s.ended(),
    ensures
        s.after(replies) == s,
    decreases replies.len(),
{
    if replies.len() > 0 {
        lemma_ended_stays(s, replies.drop_last());
    }
}

/// Whether a reply is what `world` answers to the question that is pending
/// in a state. Where no question is pending, any reply will do.
pub open spec fn agrees(world: spec_fn(QueryView) -> Reply, s: State, reply: Reply) -> bool {
    match s.pending() {
        StepView::Ask(query) => reply == world(query),
        _ => true,
    }
}

/// Whether each of the replies is what `world` answers to the question that
/// is pending when the reply is given.
pub open spec fn answered_by(
    world: spec_fn(QueryView) -> Reply, s: State, replies: Seq<Reply>,
) -> bool {
    forall|i: int|
        0 <= i < replies.len() ==> #[trigger] agrees(world, s.after(replies.take(i)), replies[i])
}

/// The state after the first `i` replies follows on the state after one
/// reply less.
proof fn lemma_after_take(s: State, replies: Seq<Reply>, i: int)
    requires
        0 < i <= replies.len(),
    ensures
        s.after(replies.take(i)) == s.after(replies.take(i - 1)).next(replies[i - 1]),
{
    assert(replies.take(i).drop_last() =~= replies.take(i - 1));
    assert(replies.take(i).last() == replies[i - 1]);
}

/// Two replies that agree with the same world lead from a state to the same
/// state.
proof fn lemma_agreeing_replies(
    world: spec_fn(QueryView) -> Reply, s: State, one: Reply, other: Reply,
)
    requires
        agrees(world, s, one),
        agrees(world, s, other),
    ensures
        s.next(one) == s.next(other),
{
    if s.pending() is Ask {
    } else {
        assert(s.ended());
    }
}

/// Two merges that get the same answers to the same questions are in the
/// same state after as many replies.
proof fn lemma_same_world_same_state(
    world: spec_fn(QueryView) -> Reply,
    s: State,
    first: Seq<Reply>,
    second: Seq<Reply>,
    i: int,
)
    requires
        answered_by(world, s, first),
        answered_by(world, s, second),
        0 <= i <= first.len(),
        i <= second.len(),
    ensures
        s.after(first.take(i)) == s.after(second.take(i)),
    decreases i,
{
    if i == 0 {
        assert(first.take(0) =~= second.take(0));
    } else {
        lemma_same_world_same_state(world, s, first, second, i - 1);
        lemma_after_take(s, first, i);
        lemma_after_take(s, second, i);
        let before = s.after(first.take(i - 1));
        assert(agrees(world, s.after(first.take(i - 1)), first[i - 1]));
        assert(agrees(world, s.after(second.take(i - 1)), second[i - 1]));
        lemma_agreeing_replies(world, before, first[i - 1], second[i - 1]);
    }
}

/// The longer of two merges with the answers of the same world ends where
/// the shorter one has ended.
proof fn lemma_longer_ends_alike(
    world: spec_fn(QueryView) -> Reply,
    s: State,
    short: Seq<Reply>,
    long: Seq<Reply>,
)
    requires
        answered_by(world, s, short),
        answered_by(world, s, long),
        short.len() <= long.len(),
        s.after(short).ended(),
    ensures
        s.after(short) == s.after(long),
{
    let k = short.len() as int;
    lemma_same_world_same_state(world, s, short, long, k);
    assert(short.take(k) =~= short);
    assert(long =~= long.take(k) + long.skip(k));
    lemma_after_both(s, long.take(k), long.skip(k));
    lemma_ended_stays(s.after(short), long.skip(k));
}

/// Merging twice gives the same: two merges that start in the same state
/// and whose questions get the answers of the same world end in the same
/// state, with the same stacks merged, in conflict and missing, the same
/// commit written and the same id for it.
pub proof fn lemma_same_world_same_end(
    world: spec_fn(QueryView) -> Reply,
    s: State,
    first: Seq<Reply>,
    second: Seq<Reply>,
)
    requires
        answered_by(world, s, first),
        answered_by(world, s, second),
        s.after(first).ended(),
        s.after(second).ended(),
    ensures
        s.after(first) == s.after(second),
        s.after(first).pending() == s.after(second).pending(),
{
    if first.len() <= second.len() {
        lemma_longer_ends_alike(world, s, first, second);
    } else {
        lemma_longer_ends_alike(world, s, second, first);
    }
}

/// Whether `ask` answers alike when it is asked alike: to queries that hold
/// the same it gives the same reply, or fails in the same way.
pub open spec fn answers_alike<E, F: Fn(Query) -> Result<Reply, E>>(ask: F) -> bool {
    forall|one: Query, other: Query, first: Result<Reply, E>, second: Result<Reply, E>|
        one@ == other@ && #[trigger] ask.ensures((one,), first) && #[trigger] ask.ensures(
            (other,),
            second,
        ) ==> first == second
}

/// Whether two results of a merge are the same: the same outcome, or the
/// same failure.
pub open spec fn same_result<E>(
    one: Result<Outcome, Failure<E>>,
    other: Result<Outcome, Failure<E>>,
) -> bool {
    match (one, other) {
        (Ok(a), Ok(b)) => a@ == b@,
        (Err(Failure::Merge(a)), Err(Failure::Merge(b))) => a == b,
        (Err(Failure::Collaborator(a)), Err(Failure::Collaborator(b))) => a == b,
        _ => false,
    }
}

/// Two merges that begin alike and ask the same collaborators get the same
/// replies as far as both go.
proof fn lemma_same_replies<E, F: Fn(Query) -> Result<Reply, E>>(
    ask: F,
    begin: State,
    first: Seq<Reply>,
    second: Seq<Reply>,
    i: int,
)
    requires
        answers_alike(ask),
        given_by(ask, begin, first),
        given_by(ask, begin, second),
        0 <= i <= first.len(),
        i <= second.len(),
    ensures
        first.take(i) == second.take(i),
    decreases i,
{
    if i == 0 {
        assert(first.take(0) =~= second.take(0));
    } else {
        lemma_same_replies(ask, begin, first, second, i - 1);
        let state = begin.after(first.take(i - 1));
        assert(may_answer(ask, begin.after(first.take(i - 1)), first[i - 1]));
        assert(may_answer(ask, begin.after(second.take(i - 1)), second[i - 1]));
        let one = choose|query: Query|
            state.pending() == StepView::Ask(query@) && ask.ensures((query,), Ok(first[i - 1]));
        let other = choose|query: Query|
            state.pending() == StepView::Ask(query@) && ask.ensures((query,), Ok(second[i - 1]));
        assert(Ok::<Reply, E>(first[i - 1]) == Ok::<Reply, E>(second[i - 1]));
        assert(first.take(i) =~= first.take(i - 1).push(first[i - 1]));
        assert(second.take(i) =~= second.take(i - 1).push(second[i - 1]));
    }
}

/// A merge that has its result gets no further reply.
proof fn lemma_no_reply_after_the_end<E, F: Fn(Query) -> Result<Reply, E>>(
    ask: F,
    begin: State,
    replies: Seq<Reply>,
    result: Result<Outcome, Failure<E>>,
    reply: Reply,
)
    requires
        answers_alike(ask),
        ends_with(ask, begin, replies, result),
    ensures
        !may_answer(ask, begin.after(replies), reply),
{
    let end = begin.after(replies);
    if may_answer(ask, end, reply) {
        let asked = choose|query: Query|
            end.pending() == StepView::Ask(query@) && ask.ensures((query,), Ok(reply));
        match result {
            Err(Failure::Collaborator(error)) => {
                let failed = choose|query: Query|
                    end.pending() == StepView::Ask(query@) && ask.ensures((query,), Err(error));
                assert(Ok::<Reply, E>(reply) == Err::<Reply, E>(error));
            },
            _ => {},
        }
    }
}

/// Merging twice gives the same. If the collaborators answer alike when
/// they are asked alike, as they do while the graph and the repository stay
/// as they are, then two merges of the same stacks with the same hero get
/// the same replies and have the same result: the same stacks merged, in
/// conflict and missing, and the same commit id.
pub proof fn lemma_merging_twice<E, F: Fn(Query) -> Result<Reply, E>>(
    ask: F,
    begin: State,
    first: Seq<Reply>,
    one: Result<Outcome, Failure<E>>,
    second: Seq<Reply>,
    other: Result<Outcome, Failure<E>>,
)
    requires
        answers_alike(ask),
        ends_with(ask, begin, first, one),
        ends_with(ask, begin, second, other),
    ensures
        first == second,
        same_result(one, other),
{
    let n = if first.len() <= second.len() {
        first.len() as int
    } else {
        second.len() as int
    };
    lemma_same_replies(ask, begin, first, second, n);
    if first.len() < second.len() {
        assert(first.take(n) =~= first);
        lemma_no_reply_after_the_end(ask, begin, first, one, second[n]);
        assert(may_answer(ask, begin.after(second.take(n)), second[n]));
    } else if second.len() < first.len() {
        assert(second.take(n) =~= second);
        lemma_no_reply_after_the_end(ask, begin, second, other, first[n]);
        assert(may_answer(ask, begin.after(first.take(n)), first[n]));
    } else {
        assert(first.take(n) =~= first);
        assert(second.take(n) =~= second);
        let end = begin.after(first);
        match (one, other) {
            (Err(Failure::Collaborator(a)), Err(Failure::Collaborator(b))) => {
                let asked = choose|query: Query|
                    end.pending() == StepView::Ask(query@) && ask.ensures((query,), Err(a));
                let again = choose|query: Query|
                    end.pending() == StepView::Ask(query@) && ask.ensures((query,), Err(b));
                assert(Err::<Reply, E>(a) == Err::<Reply, E>(b));
            },
            _ => {},
        }
    }
}

/// The merge of a single stack asks no tree merge of anyone. It asks for
/// the stack's reference, then for the tree of its tip, then has the
/// workspace commit written with that very tree and the tip as its one
/// parent, and ends with the stack as the one that is merged.
pub proof fn lemma_single_stack(
    name: Seq<u8>,
    hero: Option<Seq<u8>>,
    settings: CommitSettings,
    sidx: SegmentIndex,
    tip: ObjectId,
    tree: ObjectId,
    id: ObjectId,
)
    ensures
        ({
            let stack = StackView { tip, name: Some(short_name(name)) };
            let asked = State::init(seq![name], hero, settings, None);
            let found = asked.next(Reply::Resolved(Some((sidx, tip))));
            let peeled = found.next(Reply::Tree(tree));
            let written = peeled.next(Reply::Written(id));
            &&& asked.pending() == StepView::Ask(QueryView::ResolveRef(name))
            &&& found.pending() == StepView::Ask(QueryView::PeelToTree(tip))
            &&& peeled.pending() == StepView::Ask(
                QueryView::WriteCommit(workspace_commit(seq![stack], tree, settings.signing_time())),
            )
            &&& workspace_commit(seq![stack], tree, settings.signing_time()).tree == tree
            &&& workspace_commit(seq![stack], tree, settings.signing_time()).parents == seq![tip]
            &&& written.pending() is Done
            &&& written.pending()->Done_0.workspace_commit_id == id
            &&& written.pending()->Done_0.stacks == seq![stack]
            &&& written.pending()->Done_0.conflicting_stacks.len() == 0
            &&& written.pending()->Done_0.missing_stacks.len() == 0
        }),
{
    let stack = StackView { tip, name: Some(short_name(name)) };
    let asked = State::init(seq![name], hero, settings, None);
    let found = asked.next(Reply::Resolved(Some((sidx, tip))));
    let peeled = found.next(Reply::Tree(tree));
    let written = peeled.next(Reply::Written(id));
    let slot = Some(Tip { mode: Instruction::Merge, commit_id: tip, sidx });
    let slots = Seq::<Option<Tip>>::empty().push(slot);
    assert(asked.phase is Resolving);
    assert(slots.len() == 1 && slots[0] == slot);
    reveal_with_fuel(next_active, 3);
    reveal_with_fuel(picked, 3);
    assert(next_active(slots, 0) == 0);
    assert(found.slots == slots);
    assert(found.phase == Phase::TipTree { idx: 0 });
    assert(next_active(slots, 1) == 1);
    assert(is_active(slots[0]));
    assert(any_active(slots));
    assert(peeled.phase == Phase::Writing { tree });
    assert(peeled.merged() =~= seq![0int]);
    assert(peeled.stacks() =~= seq![stack]);
    assert(workspace_commit(seq![stack], tree, settings.signing_time()).parents =~= seq![tip]);
    assert(written.phase == Phase::Done { id });
    assert(written.conflicting() =~= Seq::<int>::empty());
    assert(written.missing() =~= Seq::<int>::empty());
    assert(written.stacks() =~= seq![stack]);
}

/// The commit that a merge has written is a managed workspace commit. Its
/// parents are the tips of the merged stacks, in the order of the input,
/// and its tree is that of the running merge: the merged tree, or the tree
/// of the one candidate if nothing had to be merged.
pub proof fn lemma_written_commit(s: State)
    requires
        s.wf(),
        s.phase is Writing,
    ensures
        s.pending() is Ask,
        s.pending()->Ask_0 is WriteCommit,
        ({
            let commit = s.pending()->Ask_0->WriteCommit_0;
            let tree = s.phase->Writing_tree;
            &&& commit.tree == tree
            &&& commit.parents.len() == s.stacks().len() > 0
            &&& forall|k: int|
                0 <= k < commit.parents.len() ==> (#[trigger] commit.parents[k]) == s.stacks()[k].tip
            &&& crate::commit::is_managed_message(commit.message)
            &&& forall|reply: Reply|
                (#[trigger] s.next(reply)).pending() is Done ==> s.next(reply).pending()->Done_0.stacks
                    == s.stacks()
        }),
{
    let tree = s.phase->Writing_tree;
    crate::commit::lemma_constructed_is_managed(s.stacks(), tree, s.settings.signing_time());
    let n = s.slots.len() as int;
    let keep = |i: int| is_active(s.slots[i]);
    let i = choose|i: int| 0 <= i < s.slots.len() && is_active(#[trigger] s.slots[i]);
    lemma_picked(n, keep);
    assert(keep(i));
    assert(picked(n, keep).contains(i));
}

/// Whether at most one reference of the input is the hero's.
pub open spec fn hero_once(s: State) -> bool {
    forall|i: int, j: int|
        0 <= i < s.names.len() && 0 <= j < s.names.len() && #[trigger] s.is_hero(i)
            && #[trigger] s.is_hero(j) ==> i == j
}

/// Whether the hero, where it is a candidate, is to be merged.
pub open spec fn hero_kept(s: State) -> bool {
    forall|i: int|
        0 <= i < s.slots.len() && s.is_hero(i) && (#[trigger] s.slots[i]) is Some
            ==> s.slots[i]->0.mode is Merge
}

/// No reply takes the hero out of the merge.
pub proof fn lemma_hero_kept(s: State, reply: Reply)
    requires
        s.wf(),
        hero_once(s),
        hero_kept(s),
    ensures
        hero_kept(s.next(reply)),
        hero_once(s.next(reply)),
{
    lemma_next(s, reply);
    let t = s.next(reply);
    assert forall|i: int| 0 <= i < t.names.len() implies t.is_hero(i) == s.is_hero(i) by {}
    match (s.phase, reply) {
        (Phase::Merging(job, _, _), Reply::Tested { conflicts }) => {
            let idx = job.idx as int;
            if job.trial is Some {
                assert(on_trial(s.slots[idx]));
                assert(!s.is_hero(idx));
            }
        },
        (Phase::Merging(job, base, _), Reply::Merged(result)) => {
            let idx = job.idx as int;
            if job.trial is None {
                match result {
                    TreeMerge::Conflicted => {
                        if !(s.slots[idx]->0.mode is MergeTrial) && s.is_hero(idx) {
                            lemma_prev_active(s.slots, idx);
                            let culprit = prev_active(s.slots, idx)->0;
                            assert(!s.is_hero(culprit));
                        }
                    },
                    TreeMerge::Clean(tree) => {},
                }
            }
        },
        _ => {},
    }
}

/// Whatever the collaborators answer, the hero stays in the merge.
pub proof fn lemma_hero_kept_after(s: State, replies: Seq<Reply>)
    requires
        s.wf(),
        hero_once(s),
        hero_kept(s),
    ensures
        s.after(replies).wf(),
        hero_kept(s.after(replies)),
        hero_once(s.after(replies)),
    decreases replies.len(),
{
    lemma_after(s, replies);
    if replies.len() > 0 {
        lemma_hero_kept_after(s, replies.drop_last());
        lemma_hero_kept(s.after(replies.drop_last()), replies.last());
    }
}

/// The hero ends up merged. If the input names the hero's reference once
/// and the graph holds it, then every merge that succeeds has the hero's
/// stack among the merged ones, whatever had to be left out for it.
pub proof fn lemma_hero_is_merged(
    names: Seq<Seq<u8>>,
    hero: Seq<u8>,
    settings: CommitSettings,
    replies: Seq<Reply>,
    at: int,
)
    requires
        names.len() <= usize::MAX,
        0 <= at < names.len(),
        names[at] == hero,
        forall|i: int| 0 <= i < names.len() && names[i] == hero ==> i == at,
        State::init(names, Some(hero), settings, None).after(replies).pending() is Done,
        State::init(names, Some(hero), settings, None).after(replies).slots[at] is Some,
    ensures
        ({
            let end = State::init(names, Some(hero), settings, None).after(replies);
            &&& end.merged().contains(at)
            &&& exists|k: int|
                0 <= k < end.pending()->Done_0.stacks.len() && end.pending()->Done_0.stacks[k]
                    == end.stack_at(at)
        }),
{
    let begin = State::init(names, Some(hero), settings, None);
    lemma_init(names, Some(hero), settings, None);
    lemma_hero_kept_after(begin, replies);
    lemma_after(begin, replies);
    let end = begin.after(replies);
    assert(end.is_hero(at));
    let keep = |i: int| is_active(end.slots[i]);
    lemma_picked(end.slots.len() as int, keep);
    assert(keep(at));
    assert(end.merged().contains(at));
    let k = choose|k: int| 0 <= k < end.merged().len() && end.merged()[k] == at;
    assert(end.pending()->Done_0.stacks[k] == end.stack_at(at));
}

/// The position of the hero among the references, or their number if the
/// hero is none of them.
pub open spec fn hero_at(names: Seq<Seq<u8>>, hero: Option<Seq<u8>>) -> int {
    first_from(names.len() as int, 0, |i: int| hero == Some(names[i]))
}

/// The candidate at which a pass stands; behind all of them once the pass
/// is over.
pub open spec fn cursor(s: State) -> int {
    match s.phase {
        Phase::TipTree { idx } => idx as int,
        Phase::BaseSegment(job) => job.idx as int,
        Phase::BaseCommit(job, _) => job.idx as int,
        Phase::BaseTree(job, _, _) => job.idx as int,
        Phase::Merging(job, _, _) => job.idx as int,
        Phase::Writing { .. } => s.slots.len() as int,
        Phase::Done { .. } => s.slots.len() as int,
        _ => 0,
    }
}

/// Whether only candidates before the position `h` are on trial, and only
/// while there is a candidate at `h`.
pub open spec fn tried_before(slots: Seq<Option<Tip>>, h: int) -> bool {
    forall|j: int|
        0 <= j < slots.len() && on_trial(#[trigger] slots[j]) ==> j < h < slots.len() && slots[h]
            is Some
}

/// Whether the candidate at `h`, if there is one, takes part in the merge.
pub open spec fn active_at(slots: Seq<Option<Tip>>, h: int) -> bool {
    0 <= h < slots.len() && slots[h] is Some ==> is_active(slots[h])
}

/// Whether trials are settled in time: only candidates before the hero are
/// ever on trial, and none of them still is once the pass is beyond the
/// hero.
pub open spec fn trials_settled(s: State) -> bool {
    let h = hero_at(s.names, s.hero);
    &&& tried_before(s.slots, h)
    &&& cursor(s) > h ==> !trial_before(s.slots, h)
}

/// The hero's position is the one position of the hero.
proof fn lemma_hero_at(s: State)
    requires
        hero_once(s),
    ensures
        0 <= hero_at(s.names, s.hero) <= s.names.len(),
        forall|i: int|
            0 <= i < s.names.len() ==> (#[trigger] s.is_hero(i) <==> i == hero_at(
                s.names,
                s.hero,
            )),
{
    let holds = |i: int| s.hero == Some(s.names[i]);
    lemma_first_from(s.names.len() as int, 0, holds);
    let h = hero_at(s.names, s.hero);
    assert forall|i: int| 0 <= i < s.names.len() implies (#[trigger] s.is_hero(i) <==> i == h) by {
        if s.is_hero(i) {
            assert(holds(i));
            if h < s.names.len() {
                assert(holds(h));
                assert(s.is_hero(h));
            }
        }
        if i == h {
            assert(holds(h));
        }
    }
}

/// Going on from `from` keeps trials settled, if the pass is not beyond the
/// hero yet or no candidate before the hero is on trial.
proof fn lemma_seek_settled(s: State, from: int)
    requires
        0 <= from <= s.slots.len() == s.names.len(),
        tried_before(s.slots, hero_at(s.names, s.hero)),
        active_at(s.slots, hero_at(s.names, s.hero)),
        0 <= hero_at(s.names, s.hero),
        from > hero_at(s.names, s.hero) ==> !trial_before(s.slots, hero_at(s.names, s.hero)),
    ensures
        trials_settled(s.seek(from)),
{
    let h = hero_at(s.names, s.hero);
    lemma_next_active(s.slots, from);
    let t = s.seek(from);
    if from <= h && cursor(t) > h && trial_before(s.slots, h) {
        let j = choose|j: int| 0 <= j < h && j < s.slots.len() && on_trial(#[trigger] s.slots[j]);
        assert(is_active(s.slots[h]));
        assert(next_active(s.slots, from) <= h);
    }
}

/// Replacing the mode of a candidate by one that is no trial puts nobody on
/// trial.
proof fn lemma_relabel_settled(slots: Seq<Option<Tip>>, i: int, mode: Instruction, h: int)
    requires
        0 <= i < slots.len(),
        slots[i] is Some,
        !(mode is MergeTrial),
        tried_before(slots, h),
    ensures
        tried_before(with_mode(slots, i, mode), h),
        !trial_before(slots, h) ==> !trial_before(
            with_mode(slots, i, mode),
            h,
        ),
{
    let r = with_mode(slots, i, mode);
    assert forall|j: int| 0 <= j < r.len() && on_trial(#[trigger] r[j]) implies j < h < r.len()
        && r[h] is Some by {
        assert(on_trial(slots[j]));
    }
    if trial_before(r, h) {
        let j = choose|j: int| 0 <= j < h && j < r.len() && on_trial(#[trigger] r[j]);
        assert(on_trial(slots[j]));
    }
}

/// No reply unsettles the trials.
#[verifier::rlimit(30)]
pub proof fn lemma_trials_settled(s: State, reply: Reply)
    requires
        s.wf(),
        hero_once(s),
        hero_kept(s),
        trials_settled(s),
    ensures
        trials_settled(s.next(reply)),
{
    let h = hero_at(s.names, s.hero);
    lemma_hero_at(s);
    lemma_next(s, reply);
    assert(active_at(s.slots, h)) by {
        if 0 <= h < s.slots.len() && s.slots[h] is Some {
            assert(s.is_hero(h));
        }
    }
    match (s.phase, reply) {
        (Phase::Resolving, Reply::Resolved(found)) => {
            let slot = match found {
                Some((sidx, commit_id)) => Some(Tip { mode: Instruction::Merge, commit_id, sidx }),
                None => None,
            };
            let grown = State { slots: s.slots.push(slot), ..s };
            assert(tried_before(grown.slots, h)) by {
                assert forall|j: int|
                    0 <= j < grown.slots.len() && on_trial(#[trigger] grown.slots[j]) implies j < h
                    < grown.slots.len() && grown.slots[h] is Some by {
                    assert(on_trial(s.slots[j]));
                }
            }
            if grown.slots.len() >= grown.names.len() {
                let fresh = State { running: Running::fresh(), ..grown };
                lemma_seek_settled(fresh, 0);
            }
        },
        (Phase::TipTree { idx }, Reply::Tree(tree)) => {
            let tip = s.slots[idx as int]->0;
            match s.running.previous_tip {
                None => {
                    let taken = State {
                        running: Running { previous_tip: Some((tree, tip.sidx)), ..s.running },
                        ..s
                    };
                    if idx >= h && trial_before(s.slots, h) {
                        let j = choose|j: int|
                            0 <= j < h && j < s.slots.len() && on_trial(#[trigger] s.slots[j]);
                        assert(is_active(s.slots[j]));
                    }
                    lemma_seek_settled(taken, idx + 1);
                },
                Some(_) => {},
            }
        },
        (Phase::Merging(job, base, _), Reply::Tested { conflicts }) => {
            let idx = job.idx as int;
            if job.trial is Some {
                assert(on_trial(s.slots[idx]));
                let mode = if conflicts {
                    Instruction::CertainConflict
                } else {
                    Instruction::Merge
                };
                let r = s.relabel(idx, mode);
                lemma_relabel_settled(s.slots, idx, mode, h);
                if conflicts {
                    lemma_seek_settled(r, idx + 1);
                } else {
                    let taken = State {
                        running: Running::adopt(
                            job.trial->0.base,
                            job.trial->0.merged,
                            job.this_tree,
                            r.slots[idx]->0.sidx,
                        ),
                        ..r
                    };
                    lemma_seek_settled(taken, idx + 1);
                }
            }
        },
        (Phase::Merging(job, base, _), Reply::Merged(result)) => {
            let idx = job.idx as int;
            let tip = s.slots[idx]->0;
            if job.trial is None {
                match result {
                    TreeMerge::Conflicted => {
                        if tip.mode is MergeTrial {
                        } else if s.is_hero(idx) {
                            lemma_prev_active(s.slots, idx);
                            let culprit = prev_active(s.slots, idx)->0;
                            let r = s.relabel(culprit, Instruction::Skip);
                            lemma_relabel_settled(s.slots, culprit, Instruction::Skip, h);
                            let fresh = State { running: Running::fresh(), ..r };
                            lemma_seek_settled(fresh, 0);
                        } else {
                            let r = s.relabel(idx, Instruction::Skip);
                            lemma_relabel_settled(s.slots, idx, Instruction::Skip, h);
                            lemma_seek_settled(r, idx + 1);
                        }
                    },
                    TreeMerge::Clean(tree) => {
                        if s.is_hero(idx) {
                            if !trial_before(s.slots, idx) {
                                let marked = attribute(s.slots, idx, tip.sidx, job.this_tree);
                                let attributed = State { slots: marked, ..s };
                                assert(tried_before(marked, h)) by {
                                    assert forall|j: int|
                                        0 <= j < marked.len() && on_trial(
                                            #[trigger] marked[j],
                                        ) implies j < h < marked.len() && marked[h] is Some by {
                                        if !on_trial(s.slots[j]) {
                                            assert(j < idx);
                                        }
                                    }
                                }
                                if makes_trials(s.slots, idx) {
                                    if !s.ran_merge_trials {
                                        let fresh = State {
                                            running: Running::fresh(),
                                            ran_merge_trials: true,
                                            ..attributed
                                        };
                                        lemma_seek_settled(fresh, 0);
                                    }
                                } else {
                                    assert(!trial_before(marked, h)) by {
                                        if trial_before(marked, h) {
                                            let j = choose|j: int|
                                                0 <= j < h && j < marked.len() && on_trial(
                                                    #[trigger] marked[j],
                                                );
                                            assert(on_trial(s.slots[j]) || (s.slots[j] is Some
                                                && s.slots[j]->0.mode is Skip && skipped_before(
                                                s.slots,
                                                j,
                                            )));
                                        }
                                    }
                                    let taken = State {
                                        running: Running::adopt(
                                            base,
                                            tree,
                                            job.this_tree,
                                            marked[idx]->0.sidx,
                                        ),
                                        ..attributed
                                    };
                                    lemma_seek_settled(taken, idx + 1);
                                }
                            }
                        } else {
                            match tip.mode {
                                Instruction::MergeTrial { .. } => {},
                                _ => {
                                    let taken = State {
                                        running: Running::adopt(
                                            base,
                                            tree,
                                            job.this_tree,
                                            tip.sidx,
                                        ),
                                        ..s
                                    };
                                    lemma_seek_settled(taken, idx + 1);
                                },
                            }
                        }
                    },
                }
            }
        },
        _ => {},
    }
}

/// Whatever the collaborators answer, trials stay settled.
pub proof fn lemma_trials_settled_after(s: State, replies: Seq<Reply>)
    requires
        s.wf(),
        hero_once(s),
        hero_kept(s),
        trials_settled(s),
    ensures
        s.after(replies).wf(),
        hero_once(s.after(replies)),
        hero_kept(s.after(replies)),
        trials_settled(s.after(replies)),
    decreases replies.len(),
{
    lemma_hero_kept_after(s, replies);
    if replies.len() > 0 {
        lemma_trials_settled_after(s, replies.drop_last());
        lemma_trials_settled(s.after(replies.drop_last()), replies.last());
    }
}

/// Nobody is merged untested. If the input names the hero's reference once
/// at most, then in every merge that succeeds each merged stack is one that
/// is to be merged for good: none of them is still on trial.
pub proof fn lemma_merged_are_not_on_trial(
    names: Seq<Seq<u8>>,
    hero: Option<Seq<u8>>,
    settings: CommitSettings,
    replies: Seq<Reply>,
)
    requires
        names.len() <= usize::MAX,
        forall|i: int, j: int|
            0 <= i < names.len() && 0 <= j < names.len() && hero == Some(names[i]) && hero == Some(
                names[j],
            ) ==> i == j,
        State::init(names, hero, settings, None).after(replies).pending() is Done,
    ensures
        ({
            let end = State::init(names, hero, settings, None).after(replies);
            forall|i: int|
                0 <= i < end.slots.len() && is_active(#[trigger] end.slots[i])
                    ==> end.slots[i]->0.mode is Merge
        }),
{
    let begin = State::init(names, hero, settings, None);
    lemma_init(names, hero, settings, None);
    assert(hero_once(begin)) by {
        assert forall|i: int, j: int|
            0 <= i < begin.names.len() && 0 <= j < begin.names.len() && #[trigger] begin.is_hero(i)
                && #[trigger] begin.is_hero(j) implies i == j by {}
    }
    lemma_hero_at(begin);
    lemma_trials_settled_after(begin, replies);
    let end = begin.after(replies);
    let h = hero_at(end.names, end.hero);
    assert forall|i: int| 0 <= i < end.slots.len() && is_active(#[trigger] end.slots[i]) implies end.slots[i]->0.mode
        is Merge by {
        if on_trial(end.slots[i]) {
            assert(i < h);
            assert(trial_before(end.slots, h));
        }
    }
}

/// The number of active candidates is at most the number of slots.
proof fn lemma_count_active_bound(slots: Seq<Option<Tip>>, n: int)
    requires
        0 <= n <= slots.len(),
    ensures
        count_active(slots, n) <= n,
    decreases n,
{
    if n > 0 {
        lemma_count_active_bound(slots, n - 1);
    }
}

/// The rank of a state as one number, for a merge of `n` references.
pub open spec fn weight(rank: (nat, nat, nat), n: nat) -> nat {
    rank.0 * (n + 1) * (9 * n + 3) + rank.1 * (9 * n + 3) + rank.2
}

/// The most replies that a merge of `n` references can take.
pub open spec fn most_replies(n: nat) -> nat {
    (3 * n + 2) * (9 * n + 3)
}

/// Of two ranks with parts in bounds, the one that precedes weighs less.
proof fn lemma_weight(a: (nat, nat, nat), b: (nat, nat, nat), n: nat)
    requires
        precedes(a, b),
        a.1 <= n,
        a.2 < 9 * n + 3,
    ensures
        weight(a, n) < weight(b, n),
{
    let w = 9 * n + 3;
    let v = (n + 1) * w;
    assert(a.0 * (n + 1) * w == a.0 * v) by (nonlinear_arith)
        requires
            v == (n + 1) * w,
    ;
    assert(b.0 * (n + 1) * w == b.0 * v) by (nonlinear_arith)
        requires
            v == (n + 1) * w,
    ;
    assert(a.1 * w + w <= v) by (nonlinear_arith)
        requires
            a.1 <= n,
            v == (n + 1) * w,
    ;
    if a.0 < b.0 {
        assert(a.0 * v + v <= b.0 * v) by (nonlinear_arith)
            requires
                a.0 < b.0,
                v >= 0,
        ;
    } else if a.1 < b.1 {
        assert(a.1 * w + w <= b.1 * w) by (nonlinear_arith)
            requires
                a.1 < b.1,
                w >= 0,
        ;
    }
}

/// The parts of the rank of a well-formed state are in bounds.
proof fn lemma_rank_bound(s: State)
    requires
        s.wf(),
    ensures
        s.rank().0 <= 2,
        s.rank().1 <= s.names.len(),
        s.rank().2 < 9 * s.names.len() + 3,
{
    lemma_count_active_bound(s.slots, s.slots.len() as int);
}

/// A merge that has not ended after some replies has used up as much of
/// its weight as it got replies.
proof fn lemma_weight_after(s: State, replies: Seq<Reply>)
    requires
        s.wf(),
    ensures
        s.after(replies).ended() || weight(s.after(replies).rank(), s.names.len()) + replies.len()
            <= weight(s.rank(), s.names.len()),
    decreases replies.len(),
{
    if replies.len() > 0 {
        let before = s.after(replies.drop_last());
        lemma_weight_after(s, replies.drop_last());
        lemma_after(s, replies.drop_last());
        lemma_next(before, replies.last());
        if !before.ended() {
            lemma_rank_bound(before.next(replies.last()));
            lemma_weight(before.next(replies.last()).rank(), before.rank(), s.names.len());
        }
    }
}

/// Every merge comes to an end: a merge of `n` references has its outcome,
/// or has failed, once it got `(3n + 2)(9n + 3)` replies. The restarts for
/// the hero and the one pass of trials are all within that.
pub proof fn lemma_ends_within(
    names: Seq<Seq<u8>>,
    hero: Option<Seq<u8>>,
    settings: CommitSettings,
    unsupported: Option<usize>,
    replies: Seq<Reply>,
)
    requires
        names.len() <= usize::MAX,
        replies.len() >= most_replies(names.len()),
    ensures
        State::init(names, hero, settings, unsupported).after(replies).ended(),
{
    let begin = State::init(names, hero, settings, unsupported);
    let n = names.len();
    lemma_init(names, hero, settings, unsupported);
    lemma_weight_after(begin, replies);
    lemma_after(begin, replies);
    let end = begin.after(replies);
    if !end.ended() {
        assert(weight(end.rank(), n) >= 1) by {
            if end.phase is Resolving {
                assert(2 * (n + 1) * (9 * n + 3) >= 1) by (nonlinear_arith);
                assert(end.rank().1 * (9 * n + 3) >= 0) by (nonlinear_arith);
            } else {
                assert(end.rank().2 >= 1);
                assert(end.rank().0 * (n + 1) * (9 * n + 3) >= 0) by (nonlinear_arith);
                assert(end.rank().1 * (9 * n + 3) >= 0) by (nonlinear_arith);
            }
        }
        assert(weight(begin.rank(), n) <= most_replies(n)) by {
            lemma_rank_bound(begin);
            let rank = begin.rank();
            if begin.phase is Resolving {
                assert(rank.0 == 2 && rank.1 == n && rank.2 == 0);
                assert(rank.0 * (n + 1) * (9 * n + 3) + rank.1 * (9 * n + 3) + rank.2 == (3 * n + 2)
                    * (9 * n + 3)) by (nonlinear_arith)
                    requires
                        rank.0 == 2,
                        rank.1 == n,
                        rank.2 == 0,
                ;
            } else {
                assert(rank.0 == 0 && rank.1 == 0 && rank.2 == 0);
                assert(rank.0 * (n + 1) * (9 * n + 3) + rank.1 * (9 * n + 3) + rank.2 == 0)
                    by (nonlinear_arith)
                    requires
                        rank.0 == 0,
                        rank.1 == 0,
                        rank.2 == 0,
                ;
            }
        }
    }
}

} // verus!

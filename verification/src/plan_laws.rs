//! What holds of commits and epochs together: histories are determined by what is committed, an
//! epoch is a run of strict commits, and an epoch with one frame is the same epoch.

use crate::database::{CommitStore, Database, judge};
use crate::errors::CandidateErrorModel;
use crate::fact::OperationModel;
use crate::frame::FrameModel;
use crate::intent::IntentModel;
use crate::materializer::VmEpochMaterializer;
use crate::mixed::{ControllerIntentModel, MixedOutcomeModel, mixed_chain, mixed_plan};
use crate::mixed_plan::none_accepted;
use crate::plan_model::{
    OutcomeModel, chained, collapsed, joined_operations, outcomes_follow_intents, proposal, settled,
};
use crate::world::{CandidateModel, WorldModel, candidate_of, published};
use vstd::prelude::*;

verus! {

/// A world and the log that leads to it.
pub struct CommitState {
    pub world: WorldModel,
    pub log: Seq<FrameModel>,
}

/// What a commit of operations on the current world leads to, where it succeeds.
pub open spec fn commit_leads_to(
    before: CommitState,
    operations: Seq<OperationModel>,
    after: CommitState,
) -> bool {
    candidate_of(before.world, operations) matches Ok(candidate) && after == (CommitState {
        world: published(candidate, before.world.history),
        log: before.log.push(candidate.frame),
    })
}

/// What commits one after the other lead to, unless one of them does not apply.
pub open spec fn strictly_committed(
    start: CommitState,
    transactions: Seq<Seq<OperationModel>>,
) -> Option<CommitState>
    decreases transactions.len(),
{
    if transactions.len() == 0 {
        Some(start)
    } else {
        match strictly_committed(start, transactions.drop_last()) {
            None => None,
            Some(before) => match candidate_of(before.world, transactions.last()) {
                Err(_) => None,
                Ok(candidate) => Some(
                    CommitState {
                        world: published(candidate, before.world.history),
                        log: before.log.push(candidate.frame),
                    },
                ),
            },
        }
    }
}

/// A run of commits.
pub open spec fn commit_run(
    states: Seq<CommitState>,
    transactions: Seq<Seq<OperationModel>>,
) -> bool {
    &&& states.len() == transactions.len() + 1
    &&& forall|i: int|
        0 <= i < transactions.len() ==> commit_leads_to(
            #[trigger] states[i],
            transactions[i],
            states[i + 1],
        )
}

/// A run of commits is determined by its start and by what is committed.
pub proof fn commits_are_determined(
    states: Seq<CommitState>,
    transactions: Seq<Seq<OperationModel>>,
)
    requires
        commit_run(states, transactions),
    ensures
        strictly_committed(states[0], transactions) == Some(states.last()),
    decreases transactions.len(),
{
    if transactions.len() > 0 {
        let front = states.drop_last();
        let before = transactions.drop_last();
        assert forall|i: int| 0 <= i < before.len() implies commit_leads_to(
            #[trigger] front[i],
            before[i],
            front[i + 1],
        ) by {
            assert(commit_leads_to(states[i], transactions[i], states[i + 1]));
        }
        commits_are_determined(front, before);
        let last = transactions.len() - 1;
        assert(commit_leads_to(states[last], transactions[last], states[last + 1]));
    }
}

/// Two databases that start alike and commit the same operations in the same order have, after each
/// commit, the same world with the same identity and the same frames.
pub proof fn equal_commits_have_equal_histories(
    left: Seq<CommitState>,
    right: Seq<CommitState>,
    transactions: Seq<Seq<OperationModel>>,
)
    requires
        commit_run(left, transactions),
        commit_run(right, transactions),
        left[0] == right[0],
    ensures
        left == right,
{
    assert forall|i: int| 0 <= i < left.len() implies left[i] == right[i] by {
        equal_up_to(left, right, transactions, i);
    }
    assert(left =~= right);
}

proof fn equal_up_to(
    left: Seq<CommitState>,
    right: Seq<CommitState>,
    transactions: Seq<Seq<OperationModel>>,
    index: int,
)
    requires
        commit_run(left, transactions),
        commit_run(right, transactions),
        left[0] == right[0],
        0 <= index < left.len(),
    ensures
        left[index] == right[index],
    decreases index,
{
    if index > 0 {
        equal_up_to(left, right, transactions, index - 1);
        assert(commit_leads_to(left[index - 1], transactions[index - 1], left[index]));
        assert(commit_leads_to(right[index - 1], transactions[index - 1], right[index]));
    }
}

/// A database that is opened on the log of another one has its world.
pub proof fn reopening_gives_the_world<S: CommitStore, T: CommitStore>(
    database: Database<S>,
    reopened: Database<T>,
)
    requires
        database.sound(),
        reopened.sound(),
        reopened.log() == database.log(),
    ensures
        reopened.world() == database.world(),
{
}

/// The operations of each frame.
pub open spec fn frame_operations(frames: Seq<FrameModel>) -> Seq<Seq<OperationModel>> {
    Seq::new(frames.len(), |i: int| frames[i].operations)
}

/// How many intents in front of one were accepted.
pub open spec fn accepted_before(
    base: WorldModel,
    intents: Seq<IntentModel>,
    verdicts: Seq<Result<(), Seq<char>>>,
    index: int,
) -> int {
    chained(base, intents.take(index), verdicts).frames.len() as int
}

/// The plan of an epoch is a run of strict commits: committing the operations of its frames one
/// after the other gives exactly its frames, and its tail; and the world of each accepted intent is
/// that behind its own commit.
pub proof fn plans_are_strict_commits(
    base: WorldModel,
    log: Seq<FrameModel>,
    intents: Seq<IntentModel>,
    verdicts: Seq<Result<(), Seq<char>>>,
)
    ensures
        ({
            let plan = chained(base, intents, verdicts);
            let start = CommitState { world: base, log };
            &&& strictly_committed(start, frame_operations(plan.frames)) == Some(
                CommitState { world: plan.tail, log: log + plan.frames },
            )
            &&& forall|i: int|
                0 <= i < intents.len() ==> (#[trigger] plan.outcomes[i] matches
                    OutcomeModel::Accepted { world, frame, .. } ==> {
                    let k = accepted_before(base, intents, verdicts, i);
                    &&& 0 <= k < plan.frames.len()
                    &&& frame == plan.frames[k]
                    &&& strictly_committed(start, frame_operations(plan.frames.take(k + 1)))
                        == Some(CommitState { world, log: log + plan.frames.take(k + 1) })
                })
        }),
    decreases intents.len(),
{
    let plan = chained(base, intents, verdicts);
    let start = CommitState { world: base, log };
    if intents.len() == 0 {
        assert(frame_operations(plan.frames) =~= Seq::empty());
        assert(log + plan.frames =~= log);
    } else {
        let front = intents.drop_last();
        let before = chained(base, front, verdicts);
        let last = intents.len() - 1;
        plans_are_strict_commits(base, log, front, verdicts);
        outcomes_follow_intents(base, front, verdicts);
        assert(intents.take(last) =~= front);
        if let Ok((candidate, _)) = settled(before.tail, intents.last(), verdicts[last]) {
            reveal(proposal);
            assert(candidate_of(before.tail, candidate.frame.operations) == Ok::<
                CandidateModel,
                CandidateErrorModel,
            >(candidate));
            assert(frame_operations(plan.frames).drop_last() =~= frame_operations(before.frames));
            assert(log + plan.frames =~= (log + before.frames).push(candidate.frame));
            assert(plan.frames.take(before.frames.len() as int + 1) =~= plan.frames);
        }
        assert forall|i: int| 0 <= i < intents.len() implies (#[trigger] plan.outcomes[i] matches
            OutcomeModel::Accepted { world, frame, .. } ==> {
            let k = accepted_before(base, intents, verdicts, i);
            &&& 0 <= k < plan.frames.len()
            &&& frame == plan.frames[k]
            &&& strictly_committed(start, frame_operations(plan.frames.take(k + 1))) == Some(
                CommitState { world, log: log + plan.frames.take(k + 1) },
            )
        }) by {
            if i < last {
                assert(plan.outcomes[i] == before.outcomes[i]);
                assert(front.take(i) =~= intents.take(i));
                let k = accepted_before(base, front, verdicts, i);
                if before.outcomes[i] is Accepted {
                    assert(plan.frames.take(k + 1) =~= before.frames.take(k + 1));
                }
            }
        }
    }
}

/// An epoch with one frame accepts the intents that the epoch with a frame for each accepts, with
/// the same entities, and refuses the others for the same reasons; its operations are theirs one
/// after the other; and it leads to the same definitions and the same next identity.
pub proof fn one_frame_is_the_same_epoch(
    base: WorldModel,
    intents: Seq<IntentModel>,
    verdicts: Seq<Result<(), Seq<char>>>,
)
    ensures
        ({
            let chain = chained(base, intents, verdicts);
            let plan = collapsed(chain);
            &&& plan.outcomes.len() == chain.outcomes.len()
            &&& forall|i: int|
                0 <= i < chain.outcomes.len() ==> match #[trigger] chain.outcomes[i] {
                    OutcomeModel::Accepted { position, namespace, entities, .. } => {
                        &&& plan.outcomes[i] matches OutcomeModel::Accepted {
                            position: same_position,
                            namespace: same_namespace,
                            entities: same_entities,
                            ..
                        }
                        &&& same_position == position
                        &&& same_namespace == namespace
                        &&& same_entities == entities
                    },
                    OutcomeModel::Rejected { .. } => plan.outcomes[i] == chain.outcomes[i],
                }
            &&& plan.frames.len() == if chain.frames.len() == 0 {
                0int
            } else {
                1
            }
            &&& chain.frames.len() > 0 ==> plan.frames[0].operations == joined_operations(
                chain.frames,
            )
            &&& plan.tail.kernel == chain.tail.kernel
        }),
{
}

/// Verdicts that depend on the candidate alone.
pub open spec fn judged_by(
    judge: spec_fn(CandidateModel) -> Result<(), Seq<char>>,
    base: WorldModel,
    intents: Seq<IntentModel>,
    verdicts: Seq<Result<(), Seq<char>>>,
) -> bool {
    forall|i: int|
        0 <= i < intents.len() ==> (proposal(
            chained(base, intents.take(i), verdicts).tail,
            #[trigger] intents[i],
        ) matches Ok((candidate, _)) ==> verdicts[i] == judge(candidate))
}

/// Validators that judge by the candidate alone see the same candidates in every plan of an epoch,
/// so that there is one plan.
pub proof fn candidates_decide_the_plan(
    judge: spec_fn(CandidateModel) -> Result<(), Seq<char>>,
    base: WorldModel,
    intents: Seq<IntentModel>,
    first: Seq<Result<(), Seq<char>>>,
    second: Seq<Result<(), Seq<char>>>,
)
    requires
        judged_by(judge, base, intents, first),
        judged_by(judge, base, intents, second),
    ensures
        chained(base, intents, first) == chained(base, intents, second),
        collapsed(chained(base, intents, first)) == collapsed(chained(base, intents, second)),
    decreases intents.len(),
{
    if intents.len() > 0 {
        let front = intents.drop_last();
        let last = intents.len() - 1;
        assert(intents.take(last) =~= front);
        assert forall|i: int| 0 <= i < front.len() implies (proposal(
            chained(base, front.take(i), first).tail,
            #[trigger] front[i],
        ) matches Ok((candidate, _)) ==> first[i] == judge(candidate)) by {
            assert(front.take(i) =~= intents.take(i));
            assert(front[i] == intents[i]);
        }
        assert forall|i: int| 0 <= i < front.len() implies (proposal(
            chained(base, front.take(i), second).tail,
            #[trigger] front[i],
        ) matches Ok((candidate, _)) ==> second[i] == judge(candidate)) by {
            assert(front.take(i) =~= intents.take(i));
            assert(front[i] == intents[i]);
        }
        candidates_decide_the_plan(judge, base, front, first, second);
        assert(intents[last] == intents.last());
    }
}

/// A mixed epoch in which every intent is rejected leaves the world, the machine's next identity
/// and its definitions as they were, so that whatever is planned next is planned as if it had never
/// been.
pub proof fn rejected_epochs_leave_no_trace(
    machine: VmEpochMaterializer,
    base: WorldModel,
    intents: Seq<ControllerIntentModel>,
    verdicts: Seq<Result<(), Seq<char>>>,
    later: Seq<ControllerIntentModel>,
    later_verdicts: Seq<Result<(), Seq<char>>>,
)
    requires
        none_accepted(mixed_chain(base, intents, verdicts).outcomes),
        machine.wf(),
        machine.in_step(mixed_plan(base, mixed_chain(base, intents, verdicts)).tail.kernel),
        base.kernel.next_entity <= u64::MAX,
    ensures
        ({
            let plan = mixed_plan(base, mixed_chain(base, intents, verdicts));
            &&& plan.frames.len() == 0
            &&& plan.tail == base
            &&& plan.outcomes.len() == intents.len()
            &&& mixed_plan(plan.tail, mixed_chain(plan.tail, later, later_verdicts)) == mixed_plan(
                base,
                mixed_chain(base, later, later_verdicts),
            )
        }),
        machine.in_step(base.kernel),
        machine.upcoming_entity() == base.kernel.next_entity,
{
    rejections_are_not_accepted(base, intents, verdicts);
    machine.in_step_allocates(base.kernel);
}

/// Where every outcome is a refusal, nothing was accepted.
proof fn rejections_are_not_accepted(
    base: WorldModel,
    intents: Seq<ControllerIntentModel>,
    verdicts: Seq<Result<(), Seq<char>>>,
)
    requires
        none_accepted(mixed_chain(base, intents, verdicts).outcomes),
    ensures
        mixed_chain(base, intents, verdicts).accepted == 0,
        mixed_chain(base, intents, verdicts).outcomes.len() == intents.len(),
    decreases intents.len(),
{
    let state = mixed_chain(base, intents, verdicts);
    if intents.len() > 0 {
        let front = intents.drop_last();
        let before = mixed_chain(base, front, verdicts);
        assert(state.outcomes.drop_last() =~= before.outcomes);
        assert forall|i: int| 0 <= i < before.outcomes.len() implies match #[trigger] before.outcomes[i] {
            MixedOutcomeModel::Queued(queued) => queued is Rejected,
            MixedOutcomeModel::SemanticAccepted { .. } => false,
            MixedOutcomeModel::SemanticRejected { .. } => true,
        } by {
            assert(state.outcomes[i] == before.outcomes[i]);
        }
        rejections_are_not_accepted(base, front, verdicts);
        let last = state.outcomes[state.outcomes.len() - 1];
        assert(last == state.outcomes.last());
    }
}

} // verus!

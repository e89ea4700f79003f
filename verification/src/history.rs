//! Runs of steps: whatever a core has been through since it began, its checkpoint
//! restores it.
use vstd::prelude::*;

use crate::checkpoint;
use crate::checkpoint::CheckpointWire;
use crate::compiler::CompilerView;
use crate::continuity;
use crate::digest;
use crate::integrity;
use crate::intelligence;
use crate::intelligence::CoreView;
use crate::ledger::LedgerView;
use crate::policy::PolicyEngine;
use crate::promotion;
use crate::restore;
use crate::transition::{FrameView, TransitionView};
use crate::types::{IntelligenceError, IntelligenceLimits};

verus! {

/// A core in which nothing has happened.
pub open spec fn beginning<P: PolicyEngine>(limits: IntelligenceLimits) -> CoreView {
    CoreView::assembled(limits, intelligence::initial_components::<P>(), false, false, false)
}

/// The core after a run of steps, each of which was staged and taken.
pub open spec fn run<P: PolicyEngine>(core: CoreView, frames: Seq<FrameView>) -> Option<CoreView>
    decreases frames.len(),
{
    if frames.len() == 0 {
        Some(core)
    } else {
        match run::<P>(core, frames.drop_last()) {
            None => None,
            Some(middle) => match middle.staged::<P>(frames.last()) {
                Ok(step) => Some(middle.committed(step)),
                Err(_) => None,
            },
        }
    }
}

/// The record of a step can be counted in memory.
pub open spec fn countable(core: CoreView, frame: FrameView) -> bool {
    core.components.ledger.consequences.len() + frame.consequences.len() <= usize::MAX
}

/// The record of each step of a run says all that the step does.
pub open spec fn replayable_all<P: PolicyEngine>(core: CoreView, frames: Seq<FrameView>) -> bool
    decreases frames.len(),
{
    frames.len() > 0 ==> {
        &&& replayable_all::<P>(core, frames.drop_last())
        &&& run::<P>(core, frames.drop_last()) matches Some(middle) ==> continuity::replayable(
            middle,
            frames.last(),
        ) && countable(middle, frames.last())
    }
}

/// A run keeps a core that leads to itself leading to itself.
proof fn lemma_run_keeps_faith<P: PolicyEngine>(core: CoreView, frames: Seq<FrameView>)
    requires
        continuity::faithful::<P>(core),
        continuity::orderly(core),
        continuity::settled(core),
        replayable_all::<P>(core, frames),
    ensures
        run::<P>(core, frames) matches Some(next) ==> continuity::faithful::<P>(next)
            && continuity::orderly(next) && continuity::settled(next) && next.limits == core.limits,
    decreases frames.len(),
{
    if frames.len() > 0 {
        lemma_run_keeps_faith::<P>(core, frames.drop_last());
        if let Some(middle) = run::<P>(core, frames.drop_last()) {
            if let Ok(step) = middle.staged::<P>(frames.last()) {
                continuity::law_steps_keep_core_faithful::<P>(middle, frames.last(), step);
            }
        }
    }
}

/// After any run of steps from its beginning, the checkpoint of a core restores it.
pub proof fn law_run_is_restored<P: PolicyEngine>(limits: IntelligenceLimits, frames: Seq<FrameView>)
    requires
        limits.valid(),
        CompilerView::initial().fits(limits),
        replayable_all::<P>(beginning::<P>(limits), frames),
    ensures
        run::<P>(beginning::<P>(limits), frames) matches Some(core) ==> {
            &&& continuity::faithful::<P>(core)
            &&& restore::restored::<P>(core.checkpoint) == Ok::<CoreView, IntelligenceError>(core)
            &&& core.limits == limits
        },
{
    continuity::law_fresh_core_is_restored::<P>(limits);
    lemma_run_keeps_faith::<P>(beginning::<P>(limits), frames);
    if let Some(core) = run::<P>(beginning::<P>(limits), frames) {
        continuity::law_faithful_core_is_restored::<P>(core);
    }
}

// ---------------------------------------------------------------------------
// What a run writes
// ---------------------------------------------------------------------------
/// The records that a core has written once it has been through a run: that of its
/// first snapshot, and one for each step that has a record.
pub open spec fn records_of_run<P: PolicyEngine>(
    limits: IntelligenceLimits,
    frames: Seq<FrameView>,
) -> Seq<Seq<u8>>
    decreases frames.len(),
{
    if frames.len() == 0 {
        seq![
            checkpoint::snapshot_record(
                CheckpointWire::current_spec(),
                intelligence::initial_components::<P>(),
            ),
        ]
    } else {
        let before = records_of_run::<P>(limits, frames.drop_last());
        match run::<P>(beginning::<P>(limits), frames.drop_last()) {
            None => before,
            Some(middle) => match middle.staged::<P>(frames.last()) {
                Err(_) => before,
                Ok(step) => if step.record.len() == 0 {
                    before
                } else {
                    before.push(step.record)
                },
            },
        }
    }
}

/// Whatever a core has been through since it began, its checkpoint is its header, the
/// records of its snapshot and of its steps, and its footer.
pub proof fn law_run_is_written<P: PolicyEngine>(limits: IntelligenceLimits, frames: Seq<FrameView>)
    ensures
        run::<P>(beginning::<P>(limits), frames) matches Some(core) ==> integrity::written(
            core,
            checkpoint::header(17, limits),
            records_of_run::<P>(limits, frames),
        ),
    decreases frames.len(),
{
    if frames.len() == 0 {
        integrity::law_assembled_core_is_written(
            limits,
            intelligence::initial_components::<P>(),
            false,
            false,
            false,
        );
    } else {
        law_run_is_written::<P>(limits, frames.drop_last());
        if let Some(middle) = run::<P>(beginning::<P>(limits), frames.drop_last()) {
            if let Ok(step) = middle.staged::<P>(frames.last()) {
                integrity::law_step_is_written::<P>(
                    middle,
                    checkpoint::header(17, limits),
                    records_of_run::<P>(limits, frames.drop_last()),
                    frames.last(),
                    step,
                );
            }
        }
    }
}

/// Whatever a core has been through since it began, its checkpoint with one byte
/// changed is refused as corrupt, unless two messages with one SHA-256 hash have been
/// found: one that vouches for the checkpoint, and one that is read from the changed
/// bytes.
pub proof fn law_changed_run_is_refused<P: PolicyEngine>(
    limits: IntelligenceLimits,
    frames: Seq<FrameView>,
    core: CoreView,
    index: int,
    value: u8,
)
    requires
        run::<P>(beginning::<P>(limits), frames) == Some(core),
        0 <= index < core.checkpoint.len(),
        value != core.checkpoint[index],
    ensures
        restore::restored::<P>(core.checkpoint.update(index, value)) == Err::<
            CoreView,
            IntelligenceError,
        >(IntelligenceError::CorruptState) || integrity::clashing(
            integrity::vouching(
                core,
                checkpoint::header(17, limits),
                records_of_run::<P>(limits, frames),
            ),
            integrity::authenticated::<P>(core.checkpoint.update(index, value)),
        ),
{
    law_run_is_written::<P>(limits, frames);
    integrity::law_changed_checkpoint_is_refused::<P>(
        core,
        checkpoint::header(17, limits),
        records_of_run::<P>(limits, frames),
        index,
        value,
    );
}

/// Whatever a core has been through since it began, its checkpoint ends with the
/// identity of its footer, and that is not the revision of the core, unless the two
/// messages that they are the SHA-256 hashes of clash.
pub proof fn law_identity_of_a_run_is_not_its_revision<P: PolicyEngine>(
    limits: IntelligenceLimits,
    frames: Seq<FrameView>,
    core: CoreView,
)
    requires
        run::<P>(beginning::<P>(limits), frames) == Some(core),
    ensures
        ({
            let message = integrity::footer_message(
                true,
                integrity::content_of(true, core.checkpoint),
            );
            &&& integrity::seal_of(core.checkpoint) == digest::hash(message).bytes()
            &&& integrity::seal_of(core.checkpoint) != core.revision.bytes() || integrity::clash(
                message,
                integrity::revision_message(core),
            )
        }),
{
    law_run_is_written::<P>(limits, frames);
    integrity::law_identity_is_not_the_revision(
        core,
        checkpoint::header(17, limits),
        records_of_run::<P>(limits, frames),
    );
}

// ---------------------------------------------------------------------------
// Runs that leave promotions alone
// ---------------------------------------------------------------------------
/// The knowledge updates of a step are steady where they stand.
pub open spec fn steady(core: CoreView, frame: FrameView) -> bool {
    match core.causal_step(frame) {
        Err(_) => true,
        Ok(step) => {
            let ledger = core.components.ledger.committed(step.delta);
            promotion::steady_all(
                core.components.knowledge.reconciled(ledger).0,
                frame.knowledge,
                ledger,
                core.limits,
            )
        },
    }
}

/// Everything that the core has promoted is earned.
pub open spec fn upheld(core: CoreView) -> bool {
    promotion::upheld(core.components.knowledge, core.components.ledger)
}

proof fn lemma_same_contrasts(state: CompilerView, before: LedgerView, after: LedgerView)
    requires
        promotion::upheld(state, before),
        before.contrasts == after.contrasts,
    ensures
        promotion::upheld(state, after),
{
    let stack = choose|stack: Seq<int>| #[trigger]
        promotion::stacked(state, stack) && promotion::earned(state, stack, before);
    assert forall|k: int| 0 <= k < stack.len() implies !crate::compiler::unearned(
        state.records[#[trigger] stack[k]],
        after,
    ) by {
        assert(!crate::compiler::unearned(state.records[stack[k]], before));
    }
    assert(promotion::earned(state, stack, after));
}

/// Campaigns that stand still leave the contrasts as they are.
proof fn lemma_contrasts_stand(core: CoreView, frame: FrameView)
    requires
        core.causal_step(frame) is Ok,
        continuity::orderly(core),
        countable(core, frame),
        frame.shadows.len() == 0,
    ensures
        core.components.ledger.committed(core.causal_step(frame)->Ok_0.delta).contrasts
            == core.components.ledger.contrasts,
{
    continuity::lemma_causal_step(core, frame);
}

/// A steady step withdraws nothing unsaid, and keeps what is promoted earned.
pub proof fn law_steady_step_stays_upheld<P: PolicyEngine>(
    core: CoreView,
    frame: FrameView,
    step: TransitionView,
)
    requires
        continuity::orderly(core),
        countable(core, frame),
        upheld(core),
        steady(core, frame),
        core.staged::<P>(frame) == Ok::<TransitionView, IntelligenceError>(step),
    ensures
        continuity::withdraws_openly(
            core.components.knowledge,
            core.components.ledger.committed(core.causal_step(frame)->Ok_0.delta),
            frame,
        ),
        upheld(core.committed(step)),
{
    let state = core.components.knowledge;
    let before = core.components.ledger;
    continuity::lemma_step_parts::<P>(core, frame, step);
    let ledger = before.committed(step.delta);
    if frame.shadows.len() == 0 {
        lemma_contrasts_stand(core, frame);
        lemma_same_contrasts(state, before, ledger);
        promotion::law_upheld_needs_no_withdrawal(state, ledger);
    }
    reveal(CoreView::knowledge_step);
    if frame.knowledge.len() > 0 || frame.shadows.len() > 0 {
        let stack = choose|stack: Seq<int>| #[trigger]
            promotion::stacked(state, stack) && promotion::earned(state, stack, before);
        promotion::law_reconciled_promotions_are_earned(state, stack, ledger);
        let middle = state.reconciled(ledger).0;
        promotion::law_steady_steps_keep_promotions(
            middle,
            frame.knowledge,
            ledger,
            core.limits,
        );
    }
}

/// Every step of a run is steady where it stands, and all of its parts have a byte
/// form that reads back.
pub open spec fn steady_all<P: PolicyEngine>(core: CoreView, frames: Seq<FrameView>) -> bool
    decreases frames.len(),
{
    frames.len() > 0 ==> {
        &&& steady_all::<P>(core, frames.drop_last())
        &&& run::<P>(core, frames.drop_last()) matches Some(middle) ==> continuity::writable(
            middle,
            frames.last(),
        ) && countable(middle, frames.last()) && steady(middle, frames.last())
    }
}

proof fn lemma_steady_run<P: PolicyEngine>(core: CoreView, frames: Seq<FrameView>)
    requires
        continuity::faithful::<P>(core),
        continuity::orderly(core),
        continuity::settled(core),
        upheld(core),
        steady_all::<P>(core, frames),
    ensures
        run::<P>(core, frames) matches Some(next) ==> continuity::faithful::<P>(next)
            && continuity::orderly(next) && continuity::settled(next) && upheld(next) && next.limits
            == core.limits,
    decreases frames.len(),
{
    if frames.len() > 0 {
        lemma_steady_run::<P>(core, frames.drop_last());
        if let Some(middle) = run::<P>(core, frames.drop_last()) {
            if let Ok(step) = middle.staged::<P>(frames.last()) {
                law_steady_step_stays_upheld::<P>(middle, frames.last(), step);
                continuity::law_steps_keep_core_faithful::<P>(middle, frames.last(), step);
            }
        }
    }
}

/// After a run of steps from its beginning, none of which reviews or invalidates what
/// is promoted or promotes a product again, the checkpoint of a core restores it, and
/// no promotion has to be withdrawn.
pub proof fn law_steady_run_is_restored<P: PolicyEngine>(
    limits: IntelligenceLimits,
    frames: Seq<FrameView>,
)
    requires
        limits.valid(),
        CompilerView::initial().fits(limits),
        steady_all::<P>(beginning::<P>(limits), frames),
    ensures
        run::<P>(beginning::<P>(limits), frames) matches Some(core) ==> {
            &&& continuity::faithful::<P>(core)
            &&& restore::restored::<P>(core.checkpoint) == Ok::<CoreView, IntelligenceError>(core)
            &&& core.limits == limits
            &&& upheld(core)
            &&& crate::compiler::withdrawals(
                core.components.knowledge.records,
                core.components.knowledge.active_promotions(),
                core.components.ledger,
            ) == 0
        },
{
    let first = beginning::<P>(limits);
    let none = Seq::<int>::empty();
    continuity::law_fresh_core_is_restored::<P>(limits);
    assert(promotion::stacked(first.components.knowledge, none));
    assert(promotion::earned(first.components.knowledge, none, first.components.ledger));
    lemma_steady_run::<P>(first, frames);
    if let Some(core) = run::<P>(first, frames) {
        continuity::law_faithful_core_is_restored::<P>(core);
        promotion::law_upheld_needs_no_withdrawal(
            core.components.knowledge,
            core.components.ledger,
        );
    }
}

} // verus!

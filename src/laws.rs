//! Laws of the engine, stated over the models that the operations' contracts
//! use, and proved from those contracts.
use vstd::prelude::*;
use vstd::std_specs::cmp::PartialEqSpec;

use crate::model::PipeUser;
use crate::{
    admitted, identity_is_equivalence, processing_outcome, reachable, Pipe, PipeB, PipeState, PipeU,
};

verus! {

/// Equality on `PipeUser` compares the carried strings, so it is an
/// equivalence and `PipeUser` can key a pipe's registry.
pub proof fn lemma_pipe_user_identity()
    ensures
        identity_is_equivalence::<PipeUser>(),
{
}

/// The stage's admission hook answers `ConsumeState` for `u`, and nothing else.
pub open spec fn admits_always<T: PipeU, U: PipeB<T>>(stage: U, u: &T) -> bool {
    forall|a: PipeState| #[trigger] stage.control_post(u, a) <==> a == PipeState::ConsumeState
}

/// The stage's processing hook answers `NextState` for `u`, and nothing else.
pub open spec fn advances_always<T: PipeU, U: PipeB<T>>(stage: U, u: &T) -> bool {
    forall|p: PipeState| #[trigger] stage.consume_post(u, p) <==> p == PipeState::NextState
}

/// An open gate never blocks: where the admission hook lets `u` in, the
/// outcome of a call is exactly the one that processing decides.
pub proof fn lemma_open_gate<T: PipeU, U: PipeB<T>>(stages: Seq<U>, u: &T, c: nat, out: Option<nat>)
    requires
        c < stages.len(),
        admits_always(stages[c as int], u),
    ensures
        reachable(stages, u, c, out) == processing_outcome(stages, u, c, out),
{
    assert(stages[c as int].control_post(u, PipeState::ConsumeState));
}

/// An admission hook that never answers `ConsumeState` for `u` keeps `u`
/// out: a call leaves it at the stage where it stood.
pub proof fn lemma_refused_stays<T: PipeU, U: PipeB<T>>(stages: Seq<U>, u: &T, c: nat, out: Option<nat>)
    requires
        forall|a: PipeState|
            #[trigger] stages[c as int].control_post(u, a) ==> a != PipeState::ConsumeState,
        reachable(stages, u, c, out),
    ensures
        out == Some(c),
{
}

/// Progress never moves back: after `push_user(u)`, a `u` that is still
/// tracked stands at a stage no earlier than the one it stood at before the
/// call, or than the first stage when it was not tracked.
pub proof fn lemma_progress_monotone<'r, T: PipeU, U: PipeB<T>>(
    before: Pipe<'r, T, U>,
    after: Pipe<'r, T, U>,
    u: &'r T,
)
    requires
        before.wf(),
        admitted(before, after, u),
    ensures
        after.has(u) ==> after.cursor(u) >= (if before.has(u) {
            before.cursor(u)
        } else {
            0
        }),
{
    let reg = before.registered(u);
    let i = before.registered_at(u);
    if after.has(u) {
        if before.has(u) {
            assert(before.matches_at(before.at(u), u));
        } else {
            assert(reg[i].0 == u);
            assert(u.eq_spec(u));
        }
        assert(reg[i].0.eq_spec(u));
        assert(after.matches_at(i, u));
        after.lemma_slot_unique(i, u);
    }
}

/// A call whose every outcome is completion leaves `u` untracked, and the
/// next call registers it afresh at the first stage.
pub proof fn lemma_completion_untracks<'r, T: PipeU, U: PipeB<T>>(
    before: Pipe<'r, T, U>,
    after: Pipe<'r, T, U>,
    u: &'r T,
)
    requires
        before.wf(),
        admitted(before, after, u),
        forall|out: Option<nat>|
            #[trigger] reachable(
                before.stages(),
                u,
                before.registered(u)[before.registered_at(u)].1 as nat,
                out,
            ) ==> out is None,
    ensures
        !after.has(u),
        after.registered(u) == after.entries().push((u, 0usize)),
        after.registered_at(u) == after.entries().len(),
{
}

/// A stage that admits and advances `u`, followed by a stage whose
/// disposition cascades: one call goes on into the following stage and ends
/// where a call made at that stage would end.
pub proof fn lemma_cascade<T: PipeU, U: PipeB<T>>(stages: Seq<U>, u: &T, c: nat, out: Option<nat>)
    requires
        c + 1 < stages.len(),
        admits_always(stages[c as int], u),
        advances_always(stages[c as int], u),
        stages[c + 1int].disposition() == PipeState::ConsumeState,
    ensures
        reachable(stages, u, c, out) == reachable(stages, u, c + 1, out),
{
    assert(stages[c as int].control_post(u, PipeState::ConsumeState));
    assert(stages[c as int].consume_post(u, PipeState::NextState));
}

/// A stage that admits and advances `u`, followed by a stage whose
/// disposition does not cascade: one call parks `u` at the following stage.
pub proof fn lemma_halt<T: PipeU, U: PipeB<T>>(stages: Seq<U>, u: &T, c: nat, out: Option<nat>)
    requires
        c + 1 < stages.len(),
        admits_always(stages[c as int], u),
        advances_always(stages[c as int], u),
        stages[c + 1int].disposition() != PipeState::ConsumeState,
    ensures
        reachable(stages, u, c, out) == (out == Some((c + 1) as nat)),
{
    assert(stages[c as int].control_post(u, PipeState::ConsumeState));
    assert(stages[c as int].consume_post(u, PipeState::NextState));
}

/// At the last stage, one that admits and advances `u` completes the pipe in
/// one call.
pub proof fn lemma_last_stage_completes<T: PipeU, U: PipeB<T>>(
    stages: Seq<U>,
    u: &T,
    c: nat,
    out: Option<nat>,
)
    requires
        c + 1 == stages.len(),
        admits_always(stages[c as int], u),
        advances_always(stages[c as int], u),
    ensures
        reachable(stages, u, c, out) == (out is None),
{
    assert(stages[c as int].control_post(u, PipeState::ConsumeState));
    assert(stages[c as int].consume_post(u, PipeState::NextState));
}

/// Stages that all admit and advance `u` and all cascade take `u` from any
/// of them through to completion in one call.
pub proof fn lemma_all_advancing_stages_complete<T: PipeU, U: PipeB<T>>(
    stages: Seq<U>,
    u: &T,
    c: nat,
    out: Option<nat>,
)
    requires
        c < stages.len(),
        forall|k: int|
            0 <= k < stages.len() ==> admits_always(#[trigger] stages[k], u) && advances_always(
                stages[k],
                u,
            ) && stages[k].disposition() == PipeState::ConsumeState,
    ensures
        reachable(stages, u, c, out) == (out is None),
    decreases stages.len() - c,
{
    assert(admits_always(stages[c as int], u));
    assert(advances_always(stages[c as int], u));
    if c + 1 < stages.len() {
        assert(admits_always(stages[c + 1int], u));
        lemma_all_advancing_stages_complete(stages, u, c + 1, out);
        lemma_cascade(stages, u, c, out);
    } else {
        lemma_last_stage_completes(stages, u, c, out);
    }
}

} // verus!

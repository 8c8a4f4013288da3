//! What holds of tasks that are accepted.

use vstd::prelude::*;

use crate::tasks::{PipelineInput, StageModel, TaskModel};

verus! {

/// One input of a stage, and no other, is what the stage before puts out.
pub open spec fn takes_one(inputs: Seq<PipelineInput>, k: nat) -> bool {
    exists|i: int|
        0 <= i < k && #[trigger] inputs[i] is PreviousOutput && forall|j: int|
            0 <= j < k && #[trigger] inputs[j] is PreviousOutput ==> i == j
}

/// No input of a stage is what the stage before puts out.
pub open spec fn takes_none(inputs: Seq<PipelineInput>, k: nat) -> bool {
    forall|i: int| 0 <= i < k ==> !(#[trigger] inputs[i] is PreviousOutput)
}

/// A stage that can be run: a builtin operation on inputs that the task has, and on what the stage
/// before it puts out; the first stage has none before it.
pub open spec fn sound_stage(stage: StageModel, first: bool, inputs: nat) -> bool {
    &&& crate::text::begins_with(stage.artifact, "builtin:"@)
    &&& stage.entrypoint == "run"@
    &&& first ==> takes_none(stage.inputs, stage.inputs.len())
    &&& !first ==> takes_one(stage.inputs, stage.inputs.len())
    &&& forall|j: int|
        0 <= j < stage.inputs.len() ==> (#[trigger] stage.inputs[j] matches PipelineInput::External { index }
            ==> index < inputs)
}

proof fn lemma_previous_outputs(inputs: Seq<PipelineInput>, k: nat)
    requires
        k <= inputs.len(),
    ensures
        crate::validation::previous_outputs(inputs, k) == 0 <==> takes_none(inputs, k),
        crate::validation::previous_outputs(inputs, k) == 1 <==> takes_one(inputs, k),
    decreases k,
{
    if k > 0 {
        let m = (k - 1) as nat;
        lemma_previous_outputs(inputs, m);
        let last = inputs[k - 1];
        if last is PreviousOutput {
            assert(!takes_none(inputs, k));
            if takes_none(inputs, m) {
                assert(inputs[k - 1] is PreviousOutput);
                assert(takes_one(inputs, k));
            } else {
                let i = choose|i: int| 0 <= i < m && #[trigger] inputs[i] is PreviousOutput;
                if takes_one(inputs, k) {
                    let j = choose|j: int|
                        0 <= j < k && #[trigger] inputs[j] is PreviousOutput && forall|l: int|
                            0 <= l < k && #[trigger] inputs[l] is PreviousOutput ==> j == l;
                    assert(inputs[i] is PreviousOutput && inputs[k - 1] is PreviousOutput);
                    assert(false);
                }
            }
        } else {
            if takes_one(inputs, m) {
                let i = choose|i: int|
                    0 <= i < m && #[trigger] inputs[i] is PreviousOutput && forall|j: int|
                        0 <= j < m && #[trigger] inputs[j] is PreviousOutput ==> i == j;
                assert(inputs[i] is PreviousOutput);
                assert(takes_one(inputs, k));
            }
            if takes_one(inputs, k) {
                let i = choose|i: int|
                    0 <= i < k && #[trigger] inputs[i] is PreviousOutput && forall|j: int|
                        0 <= j < k && #[trigger] inputs[j] is PreviousOutput ==> i == j;
                assert(i < m);
                assert(inputs[i] is PreviousOutput);
                assert(takes_one(inputs, m));
            }
        }
    }
}

proof fn lemma_dangling(inputs: Seq<PipelineInput>, count: nat, j: int)
    requires
        0 <= j <= inputs.len(),
    ensures
        crate::validation::dangling_input(inputs, count, j) is None <==> forall|i: int|
            j <= i < inputs.len() ==> (#[trigger] inputs[i] matches PipelineInput::External { index } ==> index
                < count),
    decreases inputs.len() - j,
{
    if j < inputs.len() {
        lemma_dangling(inputs, count, j + 1);
        let rest = crate::validation::dangling_input(inputs, count, j + 1);
        if rest is Some {
            let i = choose|i: int|
                j + 1 <= i < inputs.len() && !(#[trigger] inputs[i] matches PipelineInput::External { index }
                    ==> index < count);
            assert(!(inputs[i] matches PipelineInput::External { index } ==> index < count));
        } else {
            assert forall|i: int| j < i < inputs.len() implies (#[trigger] inputs[i] matches PipelineInput::External {
                index,
            } ==> index < count) by {}
            assert(inputs[j] matches PipelineInput::External { index } ==> index < count
                || crate::validation::dangling_input(inputs, count, j) is Some);
        }
    }
}

proof fn lemma_stages(stages: Seq<StageModel>, i: int, inputs: nat)
    requires
        0 <= i <= stages.len(),
    ensures
        crate::validation::stages_error(stages, i, inputs) is None <==> forall|s: int|
            i <= s < stages.len() ==> sound_stage(#[trigger] stages[s], s == 0, inputs),
    decreases stages.len() - i,
{
    if i < stages.len() {
        lemma_stages(stages, i + 1, inputs);
        let stage = stages[i];
        lemma_previous_outputs(stage.inputs, stage.inputs.len());
        lemma_dangling(stage.inputs, inputs, 0);
        assert(crate::validation::stage_error(stage, i as nat, inputs) is None <==> sound_stage(
            stage,
            i == 0,
            inputs,
        ));
        if crate::validation::stage_error(stage, i as nat, inputs) is None {
            if crate::validation::stages_error(stages, i + 1, inputs) is None {
                assert forall|s: int| i <= s < stages.len() implies sound_stage(
                    #[trigger] stages[s],
                    s == 0,
                    inputs,
                ) by {
                    if s > i {
                        assert(sound_stage(stages[s], s == 0, inputs));
                    }
                }
            } else {
                let s = choose|s: int|
                    i + 1 <= s < stages.len() && !sound_stage(#[trigger] stages[s], s == 0, inputs);
                assert(!sound_stage(stages[s], s == 0, inputs));
            }
        } else {
            assert(!sound_stage(stages[i], i == 0, inputs));
        }
    }
}

/// A task of one operation is always accepted. One of several stages is accepted just where it is
/// declared as such, has no effects, and has at least two stages that can each be run.
pub proof fn law_accepted_tasks_can_be_run(task: TaskModel)
    ensures
        crate::validation::task_error(task) is None <==> match task.pipeline {
            None => true,
            Some(pipeline) => {
                &&& task.artifact == "plurifold:pipeline"@
                &&& task.entrypoint == "run"@
                &&& task.effects is Pure
                &&& pipeline.stages.len() >= 2
                &&& forall|s: int|
                    0 <= s < pipeline.stages.len() ==> sound_stage(
                        #[trigger] pipeline.stages[s],
                        s == 0,
                        task.inputs.len(),
                    )
            },
        },
{
    if let Some(pipeline) = task.pipeline {
        lemma_stages(pipeline.stages, 0, task.inputs.len());
    }
}

}

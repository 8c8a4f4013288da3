//! What holds of fusion: a fused task comes to the same as the tasks that it stands for, and it is
//! the best of its kind.

use vstd::prelude::*;

use crate::binary64::Binary64;
use crate::chains::{FusionChoice, FusionModel, SeparateChainState};
use crate::fusion::FusedChoiceModel;
use crate::ids::{ObjectId, TaskId};
use crate::jobs::{ImplementationModel, LogicalRoleModel, ShardPolicyModel};
use crate::resources::{RequirementsModel, ResourceModel};
use crate::scheduler::{PlacementDecision, ScheduleError};
use crate::tasks::{PipelineInput, StageModel, TaskModel, TemplateModel};

verus! {

/// The bytes of objects.
pub open spec fn bytes_of(contents: Map<u128, Seq<u8>>, ids: Seq<ObjectId>) -> Seq<Seq<u8>> {
    Seq::new(ids.len(), |i: int| contents[ids[i].0])
}

/// What the first `k` tasks of a chain come to where each runs on its own: the first on its inputs
/// and those of its dependencies, each other on its inputs and the object that the one before it has
/// put out.
pub open spec fn separate_output(
    tasks: Seq<TemplateModel>,
    dependency_inputs: Seq<ObjectId>,
    contents: Map<u128, Seq<u8>>,
    between: Seq<ObjectId>,
    ids: Seq<TaskId>,
    k: nat,
) -> Result<Seq<u8>, Seq<char>>
    decreases k,
{
    if k <= 1 {
        let task = tasks[0].instantiated(dependency_inputs, ids[0]);
        crate::operations::task_output(task, bytes_of(contents, task.inputs))
    } else {
        match separate_output(tasks, dependency_inputs, contents, between, ids, (k - 1) as nat) {
            Err(message) => Err(message),
            Ok(bytes) => {
                let task = tasks[k - 1].instantiated(seq![between[k - 2]], ids[k - 1]);
                crate::operations::task_output(
                    task,
                    bytes_of(contents.insert(between[k - 2].0, bytes), task.inputs),
                )
            },
        }
    }
}

/// A task without stages comes to what its operation puts out.
proof fn lemma_single_operation(task: TaskModel, inputs: Seq<Seq<u8>>)
    requires
        task.pipeline is None,
    ensures
        crate::operations::task_output(task, inputs) == crate::operations::builtin_output(
            task.artifact,
            task.arguments,
            inputs,
            task.shard,
        ),
{
    reveal_with_fuel(crate::operations::output_from, 2);
}

/// The objects that a stage reads from outside.
spec fn stage_objects(tasks: Seq<TemplateModel>, dependency_inputs: Seq<ObjectId>, k: int) -> Seq<ObjectId> {
    if k == 0 {
        tasks[k].inputs + dependency_inputs
    } else {
        tasks[k].inputs
    }
}

/// A stage is bound to the objects that it reads, and then to the output of the stage before it.
spec fn well_bound(stage: StageModel, objects: Seq<ObjectId>, externals: Seq<ObjectId>, first: bool) -> bool {
    &&& stage.inputs.len() == objects.len() + if first {
        0int
    } else {
        1
    }
    &&& forall|j: int|
        0 <= j < objects.len() ==> (#[trigger] stage.inputs[j] matches PipelineInput::External { index }
            && index < externals.len() && externals[index as int] == objects[j])
    &&& !first ==> stage.inputs.last() == PipelineInput::PreviousOutput
}

proof fn lemma_stages_well_bound(tasks: Seq<TemplateModel>, dependency_inputs: Seq<ObjectId>, n: nat, k: int)
    requires
        0 <= k < n <= tasks.len(),
        crate::fusion::fused_stages(tasks, dependency_inputs, n).externals.len() <= usize::MAX,
    ensures
        ({
            let parts = crate::fusion::fused_stages(tasks, dependency_inputs, n);
            &&& parts.stages.len() == n
            &&& parts.stages[k].artifact == tasks[k].artifact
            &&& parts.stages[k].arguments == tasks[k].arguments
            &&& well_bound(
                parts.stages[k],
                stage_objects(tasks, dependency_inputs, k),
                parts.externals,
                k == 0,
            )
        }),
    decreases n,
{
    let before = crate::fusion::fused_stages(tasks, dependency_inputs, (n - 1) as nat);
    let parts = crate::fusion::fused_stages(tasks, dependency_inputs, n);
    let objects = stage_objects(tasks, dependency_inputs, n - 1);
    crate::fusion::lemma_bound(objects, before.externals, objects.len());
    let b = crate::fusion::bound(objects, before.externals, objects.len());
    if n > 1 {
        lemma_stages_well_bound(
            tasks,
            dependency_inputs,
            (n - 1) as nat,
            if k < n - 1 {
                k
            } else {
                0
            },
        );
    }
    assert(before.stages.len() == n - 1);
    if k == n - 1 {
        let stage = parts.stages[k];
        assert forall|j: int| 0 <= j < objects.len() implies (#[trigger] stage.inputs[j] matches PipelineInput::External {
            index,
        } && index < parts.externals.len() && parts.externals[index as int] == objects[j]) by {
            assert(stage.inputs[j] == b.inputs[j]);
        }
    } else {
        let stage = parts.stages[k];
        assert(stage == before.stages[k]);
        let own = stage_objects(tasks, dependency_inputs, k);
        assert forall|j: int| 0 <= j < own.len() implies (#[trigger] stage.inputs[j] matches PipelineInput::External {
            index,
        } && index < parts.externals.len() && parts.externals[index as int] == own[j]) by {
            let at = stage.inputs[j]->index;
            assert(b.externals[at as int] == before.externals[at as int]);
        }
    }
}

/// A stage reads the bytes of the objects that it is bound to.
proof fn lemma_stage_reads(
    stage: StageModel,
    objects: Seq<ObjectId>,
    externals: Seq<ObjectId>,
    contents: Map<u128, Seq<u8>>,
    previous: Option<Seq<u8>>,
    first: bool,
    index: nat,
    k: nat,
)
    requires
        well_bound(stage, objects, externals, first),
        k <= objects.len(),
    ensures
        crate::operations::stage_inputs(
            stage.inputs,
            bytes_of(contents, externals),
            previous,
            index,
            k,
        ) == Ok::<Seq<Seq<u8>>, Seq<char>>(bytes_of(contents, objects).take(k as int)),
    decreases k,
{
    let all = bytes_of(contents, objects);
    if k == 0 {
        assert(all.take(0) =~= Seq::<Seq<u8>>::empty());
    } else {
        lemma_stage_reads(
            stage,
            objects,
            externals,
            contents,
            previous,
            first,
            index,
            (k - 1) as nat,
        );
        assert(stage.inputs[k - 1] matches PipelineInput::External { index: i } && externals[i as int]
            == objects[k - 1]);
        assert(all.take(k - 1).push(all[k - 1]) =~= all.take(k as int));
    }
}

/// What a stage works on.
proof fn lemma_stage_work(
    tasks: Seq<TemplateModel>,
    dependency_inputs: Seq<ObjectId>,
    requirements: RequirementsModel,
    id: TaskId,
    contents: Map<u128, Seq<u8>>,
    previous: Option<Seq<u8>>,
    k: nat,
)
    requires
        k < tasks.len(),
        tasks.len() >= 2,
        crate::fusion::fused_stages(tasks, dependency_inputs, tasks.len()).externals.len() <= usize::MAX,
        k > 0 ==> previous is Some,
    ensures
        ({
            let fused = crate::fusion::fused_task(tasks, dependency_inputs, requirements, id);
            let own = bytes_of(contents, stage_objects(tasks, dependency_inputs, k as int));
            crate::operations::work_at(fused, bytes_of(contents, fused.inputs), k, previous)
                == crate::operations::WorkModel::Operation {
                artifact: tasks[k as int].artifact,
                arguments: tasks[k as int].arguments,
                inputs: if k == 0 {
                    own
                } else {
                    own.push(previous.unwrap())
                },
            }
        }),
{
    let parts = crate::fusion::fused_stages(tasks, dependency_inputs, tasks.len());
    let objects = stage_objects(tasks, dependency_inputs, k as int);
    let own = bytes_of(contents, objects);
    lemma_stages_well_bound(tasks, dependency_inputs, tasks.len(), k as int);
    lemma_stage_reads(
        parts.stages[k as int],
        objects,
        parts.externals,
        contents,
        previous,
        k == 0,
        k,
        objects.len(),
    );
    assert(own.take(own.len() as int) =~= own);
}

/// What has failed stays failed.
proof fn lemma_separate_failure(
    tasks: Seq<TemplateModel>,
    dependency_inputs: Seq<ObjectId>,
    contents: Map<u128, Seq<u8>>,
    between: Seq<ObjectId>,
    ids: Seq<TaskId>,
    i: nat,
    k: nat,
)
    requires
        1 <= i <= k,
        separate_output(tasks, dependency_inputs, contents, between, ids, i) is Err,
    ensures
        separate_output(tasks, dependency_inputs, contents, between, ids, k) == separate_output(
            tasks,
            dependency_inputs,
            contents,
            between,
            ids,
            i,
        ),
    decreases k - i,
{
    if i < k {
        lemma_separate_failure(
            tasks,
            dependency_inputs,
            contents,
            between,
            ids,
            i,
            (k - 1) as nat,
        );
    }
}

/// The objects between the stages of a chain are new: no task reads them otherwise.
pub open spec fn only_between(tasks: Seq<TemplateModel>, between: Seq<ObjectId>) -> bool {
    forall|k: int, j: int, b: int|
        #![trigger tasks[k].inputs[j], between[b]]
        0 <= k < tasks.len() && 0 <= j < tasks[k].inputs.len() && 0 <= b < between.len()
            ==> tasks[k].inputs[j] != between[b]
}

/// A task that runs on its own reads its objects, and then what the one before it has put out.
proof fn lemma_separate_inputs(
    tasks: Seq<TemplateModel>,
    contents: Map<u128, Seq<u8>>,
    between: Seq<ObjectId>,
    id: TaskId,
    bytes: Seq<u8>,
    k: int,
)
    requires
        1 <= k < tasks.len(),
        between.len() == tasks.len() - 1,
        only_between(tasks, between),
    ensures
        bytes_of(
            contents.insert(between[k - 1].0, bytes),
            tasks[k].instantiated(seq![between[k - 1]], id).inputs,
        ) == bytes_of(contents, tasks[k].inputs).push(bytes),
{
    let task = tasks[k].instantiated(seq![between[k - 1]], id);
    let left = bytes_of(contents.insert(between[k - 1].0, bytes), task.inputs);
    let right = bytes_of(contents, tasks[k].inputs).push(bytes);
    assert forall|j: int| 0 <= j < left.len() implies left[j] == right[j] by {
        if j < tasks[k].inputs.len() {
            assert(task.inputs[j] == tasks[k].inputs[j]);
            assert(tasks[k].inputs[j] != between[k - 1]);
        } else {
            assert(task.inputs[j] == between[k - 1]);
        }
    }
    assert(left =~= right);
}

proof fn lemma_stages_come_to_the_same(
    tasks: Seq<TemplateModel>,
    dependency_inputs: Seq<ObjectId>,
    requirements: RequirementsModel,
    id: TaskId,
    contents: Map<u128, Seq<u8>>,
    between: Seq<ObjectId>,
    ids: Seq<TaskId>,
    k: nat,
    bytes: Seq<u8>,
)
    requires
        tasks.len() >= 2,
        1 <= k <= tasks.len(),
        crate::fusion::fused_stages(tasks, dependency_inputs, tasks.len()).externals.len() <= usize::MAX,
        between.len() == tasks.len() - 1,
        only_between(tasks, between),
        separate_output(tasks, dependency_inputs, contents, between, ids, k) == Ok::<Seq<u8>, Seq<char>>(
            bytes,
        ),
    ensures
        ({
            let fused = crate::fusion::fused_task(tasks, dependency_inputs, requirements, id);
            crate::operations::output_from(fused, bytes_of(contents, fused.inputs), k, Some(bytes))
                == separate_output(tasks, dependency_inputs, contents, between, ids, tasks.len())
        }),
    decreases tasks.len() - k,
{
    let fused = crate::fusion::fused_task(tasks, dependency_inputs, requirements, id);
    lemma_stages_well_bound(tasks, dependency_inputs, tasks.len(), 0);
    if k < tasks.len() {
        lemma_stage_work(tasks, dependency_inputs, requirements, id, contents, Some(bytes), k);
        let task = tasks[k as int].instantiated(seq![between[k - 1]], ids[k as int]);
        lemma_separate_inputs(tasks, contents, between, ids[k as int], bytes, k as int);
        lemma_single_operation(
            task,
            bytes_of(contents.insert(between[k - 1].0, bytes), task.inputs),
        );
        match separate_output(tasks, dependency_inputs, contents, between, ids, k + 1) {
            Ok(next) => {
                lemma_stages_come_to_the_same(
                    tasks,
                    dependency_inputs,
                    requirements,
                    id,
                    contents,
                    between,
                    ids,
                    k + 1,
                    next,
                );
            },
            Err(_) => {
                lemma_separate_failure(
                    tasks,
                    dependency_inputs,
                    contents,
                    between,
                    ids,
                    k + 1,
                    tasks.len(),
                );
            },
        }
    }
}

/// Fusion changes how a chain is run, not what it comes to: the fused task puts out the same bytes as
/// its tasks would one after the other, and fails where they would, with the same message.
pub proof fn law_fusion_keeps_the_output(
    tasks: Seq<TemplateModel>,
    dependency_inputs: Seq<ObjectId>,
    requirements: RequirementsModel,
    id: TaskId,
    contents: Map<u128, Seq<u8>>,
    between: Seq<ObjectId>,
    ids: Seq<TaskId>,
)
    requires
        tasks.len() >= 2,
        crate::fusion::fused_stages(tasks, dependency_inputs, tasks.len()).externals.len() <= usize::MAX,
        between.len() == tasks.len() - 1,
        only_between(tasks, between),
    ensures
        ({
            let fused = crate::fusion::fused_task(tasks, dependency_inputs, requirements, id);
            crate::operations::task_output(fused, bytes_of(contents, fused.inputs)) == separate_output(
                tasks,
                dependency_inputs,
                contents,
                between,
                ids,
                tasks.len(),
            )
        }),
{
    let task = tasks[0].instantiated(dependency_inputs, ids[0]);
    lemma_stage_work(tasks, dependency_inputs, requirements, id, contents, None, 0);
    lemma_stages_well_bound(tasks, dependency_inputs, tasks.len(), 0);
    lemma_single_operation(task, bytes_of(contents, task.inputs));
    match separate_output(tasks, dependency_inputs, contents, between, ids, 1) {
        Ok(bytes) => {
            lemma_stages_come_to_the_same(
                tasks,
                dependency_inputs,
                requirements,
                id,
                contents,
                between,
                ids,
                1,
                bytes,
            );
        },
        Err(_) => {
            lemma_separate_failure(
                tasks,
                dependency_inputs,
                contents,
                between,
                ids,
                1,
                tasks.len(),
            );
        },
    }
}

/// There is a fusion, and a given one is not better.
pub open spec fn beaten(candidate: FusionChoice, chosen: Option<FusionChoice>) -> bool {
    chosen matches Some(choice) && !candidate.better(choice)
}

proof fn lemma_over_choices_best(
    f: FusionModel,
    chain: Seq<LogicalRoleModel>,
    n: int,
    dependency_inputs: Seq<ObjectId>,
    choices: Seq<FusedChoiceModel>,
    separate_ms: Binary64,
    avoided_ms: Binary64,
    i: int,
    best: Option<FusionChoice>,
)
    requires
        0 <= i,
    ensures
        ({
            let r = crate::chains::over_choices(
                f,
                chain,
                n,
                dependency_inputs,
                choices,
                separate_ms,
                avoided_ms,
                i,
                best,
            );
            &&& best matches Some(current) ==> beaten(current, r)
            &&& forall|j: int|
                i <= j < choices.len() ==> (crate::chains::fusion_candidate(
                    f,
                    chain,
                    n,
                    dependency_inputs,
                    #[trigger] choices[j],
                    separate_ms,
                    avoided_ms,
                ) matches Some(candidate) ==> beaten(candidate, r))
        }),
    decreases choices.len() - i,
{
    if i < choices.len() {
        let candidate = crate::chains::fusion_candidate(
            f,
            chain,
            n,
            dependency_inputs,
            choices[i],
            separate_ms,
            avoided_ms,
        );
        lemma_over_choices_best(
            f,
            chain,
            n,
            dependency_inputs,
            choices,
            separate_ms,
            avoided_ms,
            i + 1,
            crate::chains::better_fusion(best, candidate),
        );
    }
}

proof fn lemma_states_through_prefix(
    f: FusionModel,
    states: Seq<SeparateChainState>,
    chain: Seq<LogicalRoleModel>,
    i: int,
    n: int,
    limit: int,
)
    requires
        0 <= i,
        n <= limit,
        states.len() > 0,
        crate::chains::through_chain(f, states, chain, i, limit) is Some,
    ensures
        crate::chains::through_chain(f, states, chain, i, n) matches Some(reached) && reached.len() > 0,
    decreases limit - i,
{
    if i < n {
        let next = crate::chains::advanced(f, states, chain[i]).unwrap();
        lemma_states_through_prefix(f, next, chain, i + 1, n, limit);
    }
}

proof fn lemma_cheapest_state_found(states: Seq<SeparateChainState>, i: int, best: Option<SeparateChainState>)
    requires
        0 <= i,
        i < states.len() || best is Some,
    ensures
        crate::chains::cheapest_state(states, false, i, best) is Some,
    decreases states.len() - i,
{
    if i < states.len() {
        let next = match best {
            Some(current) if current.total_ms.total_rank() <= states[i].total_ms.total_rank() => best,
            _ => Some(states[i]),
        };
        lemma_cheapest_state_found(states, i + 1, next);
    }
}

/// Where a chain can be run separately, so can the first of its roles.
proof fn lemma_prefix_paths(
    f: FusionModel,
    chain: Seq<LogicalRoleModel>,
    n: int,
    limit: int,
    dependency_inputs: Seq<ObjectId>,
)
    requires
        0 < n <= limit,
        crate::chains::separate_paths(f, chain, limit, dependency_inputs) is Some,
    ensures
        crate::chains::separate_paths(f, chain, n, dependency_inputs) is Some,
{
    let first = crate::chains::first_states(f, chain[0], dependency_inputs, Seq::empty(), 0);
    lemma_states_through_prefix(f, first, chain, 1, n, limit);
    let states = crate::chains::through_chain(f, first, chain, 1, n).unwrap();
    lemma_cheapest_state_found(states, 0, None);
}

/// What fusing the first `n` roles by a choice comes to, where the prefix is considered.
pub open spec fn prefix_candidate(
    f: FusionModel,
    chain: Seq<LogicalRoleModel>,
    dependency_inputs: Seq<ObjectId>,
    separate_ms: Binary64,
    n: int,
    i: int,
) -> Option<FusionChoice> {
    match crate::chains::separate_paths(f, chain, n, dependency_inputs) {
        None => None,
        Some(paths) => match paths.best_cross_resource {
            Some(crossing) if crossing.has_fusion_trigger_edge => crate::chains::fusion_candidate(
                f,
                chain,
                n,
                dependency_inputs,
                crate::fusion::fused_choices(chain, n as nat)[i],
                separate_ms,
                crossing.cross_transfer_ms,
            ),
            _ => None,
        },
    }
}

proof fn lemma_over_prefixes_best(
    f: FusionModel,
    chain: Seq<LogicalRoleModel>,
    dependency_inputs: Seq<ObjectId>,
    separate_ms: Binary64,
    at: int,
    limit: int,
    best: Option<FusionChoice>,
    n: int,
    i: int,
)
    requires
        2 <= at,
        limit <= chain.len(),
        crate::chains::separate_paths(f, chain, chain.len() as int, dependency_inputs) is Some,
        at <= n <= limit ==> 0 <= i < crate::fusion::fused_choices(chain, n as nat).len(),
    ensures
        ({
            let r = crate::chains::over_prefixes(
                f,
                chain,
                dependency_inputs,
                separate_ms,
                at,
                limit,
                best,
            );
            &&& best matches Some(current) ==> beaten(current, r)
            &&& at <= n <= limit ==> (prefix_candidate(
                f,
                chain,
                dependency_inputs,
                separate_ms,
                n,
                i,
            ) matches Some(candidate) ==> beaten(candidate, r))
        }),
    decreases limit - at + 1,
{
    if at <= limit {
        lemma_prefix_paths(f, chain, at, chain.len() as int, dependency_inputs);
        let paths = crate::chains::separate_paths(f, chain, at, dependency_inputs).unwrap();
        let choices = crate::fusion::fused_choices(chain, at as nat);
        let next = match paths.best_cross_resource {
            Some(crossing) if crossing.has_fusion_trigger_edge => {
                lemma_over_choices_best(
                    f,
                    chain,
                    at,
                    dependency_inputs,
                    choices,
                    separate_ms,
                    crossing.cross_transfer_ms,
                    0,
                    best,
                );
                crate::chains::over_choices(
                    f,
                    chain,
                    at,
                    dependency_inputs,
                    choices,
                    separate_ms,
                    crossing.cross_transfer_ms,
                    0,
                    best,
                )
            },
            _ => best,
        };
        lemma_over_prefixes_best(
            f,
            chain,
            dependency_inputs,
            separate_ms,
            at + 1,
            limit,
            next,
            n,
            i,
        );
    }
}

/// No other way to fuse a prefix of a chain is better than the one that is chosen: none saves more,
/// and of those that save as much none avoids more transfer, or as much with more roles.
pub proof fn law_the_best_prefix_is_fused(
    f: FusionModel,
    chain: Seq<LogicalRoleModel>,
    dependency_inputs: Seq<ObjectId>,
    n: int,
    i: int,
)
    requires
        2 <= n <= crate::chains::fusable_prefix(chain, 0),
        0 <= i < crate::fusion::fused_choices(chain, n as nat).len(),
    ensures
        crate::chains::separate_paths(f, chain, chain.len() as int, dependency_inputs) matches Some(whole)
            ==> (prefix_candidate(f, chain, dependency_inputs, whole.best.total_ms, n, i) matches Some(
            candidate,
        ) ==> beaten(candidate, crate::chains::best_fusion(f, chain, dependency_inputs))),
{
    crate::chains::lemma_fusable_prefix(chain, 0);
    if let Some(whole) = crate::chains::separate_paths(
        f,
        chain,
        chain.len() as int,
        dependency_inputs,
    ) {
        lemma_over_prefixes_best(
            f,
            chain,
            dependency_inputs,
            whole.best.total_ms,
            2,
            crate::chains::fusable_prefix(chain, 0),
            None,
            n,
            i,
        );
    }
}

/// One implementation for each of the first `n` roles of a chain, by name and with its task.
pub open spec fn one_of_each(chain: Seq<LogicalRoleModel>, n: nat, choice: FusedChoiceModel) -> bool {
    &&& choice.names.len() == n
    &&& choice.tasks.len() == n
    &&& forall|k: int| 0 <= k < n ==> #[trigger] is_implementation(chain[k], choice.names[k], choice.tasks[k])
}

/// A role has an implementation of a name that runs a template.
pub open spec fn is_implementation(role: LogicalRoleModel, name: Seq<char>, task: TemplateModel) -> bool {
    exists|j: int|
        0 <= j < role.implementations.len() && (#[trigger] role.implementations[j]).name == name
            && role.implementations[j].task == task
}

/// A resource that meets given requirements can run every one of some tasks.
pub open spec fn enough_for(requirements: RequirementsModel, tasks: Seq<TemplateModel>) -> bool {
    forall|resource: ResourceModel, k: int|
        #![trigger resource.supported(tasks[k].requirements)]
        resource.supported(requirements) && 0 <= k < tasks.len() ==> resource.supported(tasks[k].requirements)
}

proof fn lemma_extended_choice(
    choice: FusedChoiceModel,
    implementations: Seq<ImplementationModel>,
    k: nat,
    i: int,
) -> (j: int)
    requires
        k <= implementations.len(),
        0 <= i < crate::fusion::extended_choice(choice, implementations, k).len(),
    ensures
        0 <= j < k,
        ({
            let longer = crate::fusion::extended_choice(choice, implementations, k)[i];
            &&& longer.names == choice.names.push(implementations[j].name)
            &&& longer.tasks == choice.tasks.push(implementations[j].task)
            &&& crate::fusion::joint_requirements(
                choice.requirements,
                implementations[j].task.requirements,
            ) == Some(longer.requirements)
        }),
    decreases k,
{
    let before = crate::fusion::extended_choice(choice, implementations, (k - 1) as nat);
    if i < before.len() {
        lemma_extended_choice(choice, implementations, (k - 1) as nat, i)
    } else {
        k - 1
    }
}

proof fn lemma_extended_choices(
    choices: Seq<FusedChoiceModel>,
    implementations: Seq<ImplementationModel>,
    m: nat,
    i: int,
) -> (at: (int, int))
    requires
        m <= choices.len(),
        0 <= i < crate::fusion::extended_choices(choices, implementations, m).len(),
    ensures
        0 <= at.0 < m,
        0 <= at.1 < implementations.len(),
        ({
            let longer = crate::fusion::extended_choices(choices, implementations, m)[i];
            let choice = choices[at.0];
            &&& longer.names == choice.names.push(implementations[at.1].name)
            &&& longer.tasks == choice.tasks.push(implementations[at.1].task)
            &&& crate::fusion::joint_requirements(
                choice.requirements,
                implementations[at.1].task.requirements,
            ) == Some(longer.requirements)
        }),
    decreases m,
{
    let before = crate::fusion::extended_choices(choices, implementations, (m - 1) as nat);
    if i < before.len() {
        lemma_extended_choices(choices, implementations, (m - 1) as nat, i)
    } else {
        let j = lemma_extended_choice(
            choices[m - 1],
            implementations,
            implementations.len(),
            i - before.len(),
        );
        (m - 1, j)
    }
}

/// Every choice for the first roles of a chain takes one implementation of each of them, in their
/// order; and what it requires is enough for all of them on one resource.
pub proof fn law_fused_choices_take_one_of_each(chain: Seq<LogicalRoleModel>, n: nat, i: int)
    requires
        1 <= n <= chain.len(),
        0 <= i < crate::fusion::fused_choices(chain, n).len(),
    ensures
        one_of_each(chain, n, crate::fusion::fused_choices(chain, n)[i]),
        enough_for(
            crate::fusion::fused_choices(chain, n)[i].requirements,
            crate::fusion::fused_choices(chain, n)[i].tasks,
        ),
    decreases n,
{
    let choice = crate::fusion::fused_choices(chain, n)[i];
    if n == 1 {
        assert(chain[0].implementations[i].name == choice.names[0]);
        assert(is_implementation(chain[0], choice.names[0], choice.tasks[0]));
    } else {
        let m = (n - 1) as nat;
        let before = crate::fusion::fused_choices(chain, m);
        let (p, q) = lemma_extended_choices(before, chain[n - 1].implementations, before.len(), i);
        law_fused_choices_take_one_of_each(chain, m, p);
        assert forall|k: int| 0 <= k < n implies #[trigger] is_implementation(
            chain[k],
            choice.names[k],
            choice.tasks[k],
        ) by {
            if k < m {
                assert(is_implementation(chain[k], before[p].names[k], before[p].tasks[k]));
            } else {
                assert(chain[n - 1].implementations[q].name == choice.names[k]);
            }
        }
        assert forall|resource: ResourceModel, k: int|
            #![trigger resource.supported(choice.tasks[k].requirements)]
            resource.supported(choice.requirements) && 0 <= k < choice.tasks.len() implies resource.supported(
            choice.tasks[k].requirements,
        ) by {
            crate::fusion::law_joint_requirements_meet_both(
                resource,
                before[p].requirements,
                chain[n - 1].implementations[q].task.requirements,
            );
            if k < m {
                assert(choice.tasks[k] == before[p].tasks[k]);
                assert(resource.supported(before[p].tasks[k].requirements));
            }
        }
    }
}

proof fn lemma_joint_is_extended(
    choice: FusedChoiceModel,
    implementations: Seq<ImplementationModel>,
    k: nat,
    j: int,
) -> (i: int)
    requires
        k <= implementations.len(),
        0 <= j < k,
        crate::fusion::joint_requirements(choice.requirements, implementations[j].task.requirements) is Some,
    ensures
        0 <= i < crate::fusion::extended_choice(choice, implementations, k).len(),
        ({
            let longer = crate::fusion::extended_choice(choice, implementations, k)[i];
            &&& longer.names == choice.names.push(implementations[j].name)
            &&& longer.tasks == choice.tasks.push(implementations[j].task)
            &&& crate::fusion::joint_requirements(
                choice.requirements,
                implementations[j].task.requirements,
            ) == Some(longer.requirements)
        }),
    decreases k,
{
    let before = crate::fusion::extended_choice(choice, implementations, (k - 1) as nat);
    if j < k - 1 {
        lemma_joint_is_extended(choice, implementations, (k - 1) as nat, j)
    } else {
        before.len() as int
    }
}

proof fn lemma_every_extension(
    choices: Seq<FusedChoiceModel>,
    implementations: Seq<ImplementationModel>,
    m: nat,
    p: int,
    j: int,
) -> (i: int)
    requires
        m <= choices.len(),
        0 <= p < m,
        0 <= j < implementations.len(),
        crate::fusion::joint_requirements(choices[p].requirements, implementations[j].task.requirements) is Some,
    ensures
        0 <= i < crate::fusion::extended_choices(choices, implementations, m).len(),
        ({
            let longer = crate::fusion::extended_choices(choices, implementations, m)[i];
            &&& longer.names == choices[p].names.push(implementations[j].name)
            &&& longer.tasks == choices[p].tasks.push(implementations[j].task)
            &&& crate::fusion::joint_requirements(
                choices[p].requirements,
                implementations[j].task.requirements,
            ) == Some(longer.requirements)
        }),
    decreases m,
{
    let before = crate::fusion::extended_choices(choices, implementations, (m - 1) as nat);
    if p < m - 1 {
        lemma_every_extension(choices, implementations, (m - 1) as nat, p, j)
    } else {
        before.len() + lemma_joint_is_extended(
            choices[m - 1],
            implementations,
            implementations.len(),
            j,
        )
    }
}

/// Tasks without an accelerator that a resource can run are together one of the choices: whichever
/// implementation is taken of each role, if one resource can run them all.
pub proof fn law_every_feasible_choice_is_considered(
    chain: Seq<LogicalRoleModel>,
    n: nat,
    taken: Seq<int>,
    resource: ResourceModel,
) -> (i: int)
    requires
        1 <= n <= chain.len(),
        taken.len() == n,
        forall|k: int|
            0 <= k < n ==> 0 <= #[trigger] taken[k] < chain[k].implementations.len() && resource.supported(
                chain[k].implementations[taken[k]].task.requirements,
            ) && chain[k].implementations[taken[k]].task.requirements.accelerator is None,
    ensures
        0 <= i < crate::fusion::fused_choices(chain, n).len(),
        ({
            let choice = crate::fusion::fused_choices(chain, n)[i];
            &&& choice.names.len() == n
            &&& choice.tasks.len() == n
            &&& forall|k: int|
                0 <= k < n ==> choice.names[k] == chain[k].implementations[#[trigger] taken[k]].name
                    && choice.tasks[k] == chain[k].implementations[taken[k]].task
            &&& resource.supported(choice.requirements)
            &&& choice.requirements.accelerator is None
        }),
    decreases n,
{
    if n == 1 {
        assert(0 <= taken[0] < chain[0].implementations.len());
        taken[0]
    } else {
        let m = (n - 1) as nat;
        let shorter = taken.take(m as int);
        assert forall|k: int| 0 <= k < m implies 0 <= #[trigger] shorter[k] < chain[k].implementations.len()
            && resource.supported(chain[k].implementations[shorter[k]].task.requirements)
            && chain[k].implementations[shorter[k]].task.requirements.accelerator is None by {
            assert(taken[k] == shorter[k]);
        }
        let p = law_every_feasible_choice_is_considered(chain, m, shorter, resource);
        let before = crate::fusion::fused_choices(chain, m);
        let j = taken[n - 1];
        let last = chain[n - 1].implementations;
        crate::fusion::law_joint_requirements_demand_no_more(
            resource,
            before[p].requirements,
            last[j].task.requirements,
        );
        let i = lemma_every_extension(before, last, before.len(), p, j);
        let choice = crate::fusion::fused_choices(chain, n)[i];
        assert forall|k: int| 0 <= k < n implies choice.names[k] == chain[k].implementations[
        #[trigger] taken[k]].name && choice.tasks[k] == chain[k].implementations[taken[k]].task by {
            if k < m {
                assert(shorter[k] == taken[k]);
                assert(choice.names[k] == before[p].names[k]);
                assert(choice.tasks[k] == before[p].tasks[k]);
            }
        }
        i
    }
}

/// A fusion is what it is said to be: several roles of a chain, from the first on, none of them
/// divided and all of their implementations pure builtin work, as one pure task of as many stages. The
/// task runs one implementation of each role, is placed as any task is, and does not make the whole
/// chain take longer: what it saves is not negative.
pub proof fn law_only_pure_builtin_work_is_fused(
    f: FusionModel,
    chain: Seq<LogicalRoleModel>,
    dependency_inputs: Seq<ObjectId>,
)
    ensures
        crate::chains::best_fusion(f, chain, dependency_inputs) matches Some(choice) ==> {
            let n = choice.implementations.len();
            &&& 2 <= n <= chain.len()
            &&& forall|k: int, i: int|
                #![trigger chain[k].implementations[i]]
                0 <= k < n && 0 <= i < chain[k].implementations.len() ==> {
                    let task = chain[k].implementations[i].task;
                    &&& task.effects is Pure
                    &&& task.artifact.len() >= "builtin:"@.len()
                    &&& task.artifact.take("builtin:"@.len() as int) == "builtin:"@
                }
            &&& forall|k: int| 0 <= k < n ==> (#[trigger] chain[k]).shards == ShardPolicyModel::Fixed(1)
            &&& choice.task.effects is Pure
            &&& choice.task.shard is None
            &&& choice.task.pipeline matches Some(pipeline)
            &&& pipeline.stages.len() == n
            &&& forall|k: int|
                0 <= k < n ==> #[trigger] runs_as_stage(chain[k], choice.implementations[k], pipeline.stages[k])
            &&& !choice.estimated_vs_separate_ms.less(Binary64 { bits: 0 })
        },
{
    crate::chains::law_fusion_is_sound(f, chain, dependency_inputs);
    if let Some(choice) = crate::chains::best_fusion(f, chain, dependency_inputs) {
        let n = choice.implementations.len();
        let all = crate::fusion::fused_choices(chain, n);
        let i = choose|i: int|
            {
                &&& 0 <= i < all.len()
                &&& (#[trigger] all[i]).names == choice.implementations
                &&& choice.task == crate::fusion::fused_task(
                    all[i].tasks,
                    dependency_inputs,
                    all[i].requirements,
                    crate::shards::anonymous(),
                )
            };
        law_fused_choices_take_one_of_each(chain, n, i);
        lemma_stage_per_task(all[i].tasks, dependency_inputs, n);
        let stages = crate::fusion::fused_stages(all[i].tasks, dependency_inputs, n).stages;
        assert forall|k: int| 0 <= k < n implies #[trigger] runs_as_stage(
            chain[k],
            choice.implementations[k],
            stages[k],
        ) by {
            assert(is_implementation(chain[k], all[i].names[k], all[i].tasks[k]));
            let j = choose|j: int|
                0 <= j < chain[k].implementations.len() && (#[trigger] chain[k].implementations[j]).name
                    == all[i].names[k] && chain[k].implementations[j].task == all[i].tasks[k];
            assert(chain[k].implementations[j].task.artifact == stages[k].artifact);
        }
        assert forall|k: int, i: int|
            #![trigger chain[k].implementations[i]]
            0 <= k < n && 0 <= i < chain[k].implementations.len() implies {
            let task = chain[k].implementations[i].task;
            &&& task.effects is Pure
            &&& task.artifact.len() >= "builtin:"@.len()
            &&& task.artifact.take("builtin:"@.len() as int) == "builtin:"@
        } by {
            assert(crate::fusion::fusable_role(chain[k]));
            assert(crate::fusion::fusable(chain[k].implementations[i].task));
        }
        assert forall|k: int| 0 <= k < n implies (#[trigger] chain[k]).shards == ShardPolicyModel::Fixed(1) by {
            assert(crate::fusion::fusable_role(chain[k]));
        }
    }
}

/// A stage does what an implementation of a role, by its name, does.
pub open spec fn runs_as_stage(role: LogicalRoleModel, name: Seq<char>, stage: StageModel) -> bool {
    exists|j: int|
        0 <= j < role.implementations.len() && (#[trigger] role.implementations[j]).name == name
            && role.implementations[j].task.artifact == stage.artifact && role.implementations[j].task.entrypoint
            == stage.entrypoint && role.implementations[j].task.arguments == stage.arguments
}

pub(crate) proof fn lemma_stage_per_task(tasks: Seq<TemplateModel>, dependency_inputs: Seq<ObjectId>, n: nat)
    requires
        n <= tasks.len(),
    ensures
        ({
            let stages = crate::fusion::fused_stages(tasks, dependency_inputs, n).stages;
            &&& stages.len() == n
            &&& forall|k: int|
                0 <= k < n ==> (#[trigger] stages[k]).artifact == tasks[k].artifact && stages[k].entrypoint
                    == tasks[k].entrypoint && stages[k].arguments == tasks[k].arguments
        }),
    decreases n,
{
    if n > 0 {
        lemma_stage_per_task(tasks, dependency_inputs, (n - 1) as nat);
    }
}

/// One more stage adds its work to that of a fused task, and then the task puts out what that stage
/// does.
pub proof fn law_stages_add_their_work(
    tasks: Seq<TemplateModel>,
    last: TemplateModel,
    dependency_inputs: Seq<ObjectId>,
    requirements: RequirementsModel,
    id: TaskId,
)
    requires
        tasks.len() > 0,
    ensures
        ({
            let before = crate::fusion::fused_task(tasks, dependency_inputs, requirements, id);
            let after = crate::fusion::fused_task(tasks.push(last), dependency_inputs, requirements, id);
            &&& after.cost.compute_ms_on_reference == before.cost.compute_ms_on_reference.sum(
                last.cost.compute_ms_on_reference,
            )
            &&& after.cost.output_bytes == last.cost.output_bytes
            &&& tasks.len() == 1 ==> before.cost.compute_ms_on_reference
                == tasks[0].cost.compute_ms_on_reference
        }),
{
    lemma_compute_of_prefix(tasks, last, tasks.len());
}

proof fn lemma_compute_of_prefix(tasks: Seq<TemplateModel>, last: TemplateModel, n: nat)
    requires
        1 <= n <= tasks.len(),
    ensures
        crate::fusion::total_compute(tasks.push(last), n) == crate::fusion::total_compute(tasks, n),
    decreases n,
{
    if n > 1 {
        lemma_compute_of_prefix(tasks, last, (n - 1) as nat);
    }
}

/// Of all the ways to fuse a prefix of a chain that come into question, the one that is taken saves
/// most; of those that save as much it avoids most transfer; and of those it fuses most roles.
pub proof fn law_fusions_save_most(
    f: FusionModel,
    chain: Seq<LogicalRoleModel>,
    dependency_inputs: Seq<ObjectId>,
    n: int,
    i: int,
)
    requires
        2 <= n <= crate::chains::fusable_prefix(chain, 0),
        0 <= i < crate::fusion::fused_choices(chain, n as nat).len(),
    ensures
        crate::chains::separate_paths(f, chain, chain.len() as int, dependency_inputs) matches Some(whole)
            ==> (prefix_candidate(f, chain, dependency_inputs, whole.best.total_ms, n, i) matches Some(other)
            ==> (crate::chains::best_fusion(f, chain, dependency_inputs) matches Some(taken) && {
            let saved = taken.estimated_vs_separate_ms.total_rank();
            let avoided = taken.estimated_avoided_transfer_ms.total_rank();
            &&& other.estimated_vs_separate_ms.total_rank() <= saved
            &&& other.estimated_vs_separate_ms.total_rank() == saved
                ==> other.estimated_avoided_transfer_ms.total_rank() <= avoided
            &&& other.estimated_vs_separate_ms.total_rank() == saved
                && other.estimated_avoided_transfer_ms.total_rank() == avoided
                ==> other.implementations.len() <= taken.implementations.len()
        })),
{
    law_the_best_prefix_is_fused(f, chain, dependency_inputs, n, i);
}

/// A fusion of a whole chain is taken to save the difference between the cheapest way to run the chain
/// separately and its own cost as one task, on the resource where that is cheapest; and what it avoids
/// is what the cheapest way across resources spends between them.
pub proof fn law_savings_are_measured_against_separate_runs(
    f: FusionModel,
    chain: Seq<LogicalRoleModel>,
    dependency_inputs: Seq<ObjectId>,
    n: int,
    i: int,
)
    ensures
        crate::chains::separate_paths(f, chain, chain.len() as int, dependency_inputs) matches Some(whole)
            ==> (prefix_candidate(f, chain, dependency_inputs, whole.best.total_ms, n, i) matches Some(c) ==> {
            &&& crate::scheduler::chosen(
                f.context.risk_multiplier,
                c.task,
                f.context.resources,
                f.context.objects,
                f.context.links,
            ) == Ok::<PlacementDecision, ScheduleError>(
                PlacementDecision { resource_id: c.resource_id, cost: c.cost },
            )
            &&& n == chain.len() ==> c.estimated_vs_separate_ms == whole.best.total_ms.difference(c.cost.total_ms)
            &&& n == chain.len() ==> !whole.best.total_ms.less(c.cost.total_ms)
            &&& crate::chains::separate_paths(f, chain, n, dependency_inputs) matches Some(paths)
            &&& paths.best_cross_resource matches Some(crossing)
            &&& c.estimated_avoided_transfer_ms == crossing.cross_transfer_ms
            &&& crossing.has_fusion_trigger_edge
        }),
{
    if let Some(whole) = crate::chains::separate_paths(
        f,
        chain,
        chain.len() as int,
        dependency_inputs,
    ) {
        if let Some(c) = prefix_candidate(f, chain, dependency_inputs, whole.best.total_ms, n, i) {
            if n == chain.len() && whole.best.total_ms.less(c.cost.total_ms) {
                if whole.best.total_ms.finite() && c.cost.total_ms.finite() {
                    crate::binary64_laws::law_differences_tell_the_order(
                        whole.best.total_ms,
                        c.cost.total_ms,
                    );
                } else {
                    reveal(Binary64::sum);
                }
            }
        }
    }
}

}

//! Fused tasks: consecutive roles of a chain as the stages of one task.

use vstd::prelude::*;
use vstd::string::*;

use crate::binary64::Binary64;
use crate::ids::{ObjectId, TaskId};
use crate::jobs::{ImplementationModel, LogicalRoleModel, LogicalRoleSpec};
use crate::resources::{
    AcceleratorRequirement, AcceleratorRequirementModel, Architecture, ArchitectureModel,
    RequirementsModel, ResourceModel, ResourceRequirements,
};
use crate::tasks::{
    CostHint, EffectModel, EffectSemantics, PipelineInput, PipelineModel, StageModel, TaskModel,
    TaskPipeline, TaskPipelineStage, TaskSpec, TaskTemplate, TemplateModel,
};
use crate::text::has_prefix;

verus! {

/// The architecture that meets both demands, if one can.
pub open spec fn joint_architecture(
    left: Option<ArchitectureModel>,
    right: Option<ArchitectureModel>,
) -> Option<Option<ArchitectureModel>> {
    match (left, right) {
        (Some(a), Some(b)) => if a == b {
            Some(Some(a))
        } else {
            None
        },
        (Some(a), None) => Some(Some(a)),
        (None, b) => Some(b),
    }
}

/// The accelerator that meets both demands, if one can.
pub open spec fn joint_accelerator(
    left: Option<AcceleratorRequirementModel>,
    right: Option<AcceleratorRequirementModel>,
) -> Option<Option<AcceleratorRequirementModel>> {
    match (left, right) {
        (Some(a), Some(b)) => if a.kind == b.kind {
            Some(
                Some(
                    AcceleratorRequirementModel {
                        kind: a.kind,
                        min_count: if a.min_count >= b.min_count {
                            a.min_count
                        } else {
                            b.min_count
                        },
                        min_memory_bytes_per_device: if a.min_memory_bytes_per_device
                            >= b.min_memory_bytes_per_device {
                            a.min_memory_bytes_per_device
                        } else {
                            b.min_memory_bytes_per_device
                        },
                    },
                ),
            )
        } else {
            None
        },
        (Some(a), None) => Some(Some(a)),
        (None, b) => Some(b),
    }
}

/// The requirements of two stages on one resource, if they can be met together.
pub open spec fn joint_requirements(left: RequirementsModel, right: RequirementsModel) -> Option<
    RequirementsModel,
> {
    match (
        joint_architecture(left.architecture, right.architecture),
        joint_accelerator(left.accelerator, right.accelerator),
    ) {
        (Some(architecture), Some(accelerator)) => Some(
            RequirementsModel {
                architecture,
                min_memory_bytes: if left.min_memory_bytes >= right.min_memory_bytes {
                    left.min_memory_bytes
                } else {
                    right.min_memory_bytes
                },
                accelerator,
                required_features: left.required_features.union(right.required_features),
            },
        ),
        _ => None,
    }
}

/// An optional value with its view.
pub open spec fn view_of_option<T: View>(item: Option<Option<T>>) -> Option<Option<T::V>> {
    match item {
        Some(inner) => Some(crate::text::view_of(inner)),
        None => None,
    }
}

pub fn combine_architecture(left: &Option<Architecture>, right: &Option<Architecture>) -> (r: Option<
    Option<Architecture>,
>)
    ensures
        view_of_option(r) == joint_architecture(
            crate::text::view_of(*left),
            crate::text::view_of(*right),
        ),
{
    match (left, right) {
        (Some(a), Some(b)) => if a.same(b) {
            Some(Some(a.clone()))
        } else {
            None
        },
        (Some(a), None) => Some(Some(a.clone())),
        (None, Some(b)) => Some(Some(b.clone())),
        (None, None) => Some(None),
    }
}

pub fn combine_accelerator(
    left: &Option<AcceleratorRequirement>,
    right: &Option<AcceleratorRequirement>,
) -> (r: Option<Option<AcceleratorRequirement>>)
    ensures
        view_of_option(r) == joint_accelerator(
            crate::text::view_of(*left),
            crate::text::view_of(*right),
        ),
{
    match (left, right) {
        (Some(a), Some(b)) => if a.kind.same(&b.kind) {
            Some(
                Some(
                    AcceleratorRequirement {
                        kind: a.kind.clone(),
                        min_count: if a.min_count >= b.min_count {
                            a.min_count
                        } else {
                            b.min_count
                        },
                        min_memory_bytes_per_device: if a.min_memory_bytes_per_device
                            >= b.min_memory_bytes_per_device {
                            a.min_memory_bytes_per_device
                        } else {
                            b.min_memory_bytes_per_device
                        },
                    },
                ),
            )
        } else {
            None
        },
        (Some(a), None) => Some(Some(a.clone())),
        (None, Some(b)) => Some(Some(b.clone())),
        (None, None) => Some(None),
    }
}

pub fn combine_requirements(left: &ResourceRequirements, right: &ResourceRequirements) -> (r: Option<
    ResourceRequirements,
>)
    ensures
        crate::text::view_of(r) == joint_requirements(left@, right@),
{
    let architecture = match combine_architecture(&left.architecture, &right.architecture) {
        Some(architecture) => architecture,
        None => {
            return None;
        },
    };
    let accelerator = match combine_accelerator(&left.accelerator, &right.accelerator) {
        Some(accelerator) => accelerator,
        None => {
            return None;
        },
    };
    let mut required_features = left.required_features.clone();
    required_features.extend(&right.required_features);
    Some(
        ResourceRequirements {
            architecture,
            min_memory_bytes: if left.min_memory_bytes >= right.min_memory_bytes {
                left.min_memory_bytes
            } else {
                right.min_memory_bytes
            },
            accelerator,
            required_features,
        },
    )
}

/// A resource that meets the joint requirements of two stages meets those of each of them.
pub proof fn law_joint_requirements_meet_both(
    resource: ResourceModel,
    left: RequirementsModel,
    right: RequirementsModel,
)
    ensures
        joint_requirements(left, right) matches Some(joint) ==> (resource.supported(joint)
            ==> resource.supported(left) && resource.supported(right)),
{
    if let Some(joint) = joint_requirements(left, right) {
        if resource.supported(joint) {
            crate::resources::law_supported_is_monotone(resource, left, joint);
            crate::resources::law_supported_is_monotone(resource, right, joint);
        }
    }
}

/// A resource that meets the requirements of two stages, of which at most one asks for an
/// accelerator, meets their joint requirements: these demand no more than the two.
pub proof fn law_joint_requirements_demand_no_more(
    resource: ResourceModel,
    left: RequirementsModel,
    right: RequirementsModel,
)
    requires
        left.accelerator is None || right.accelerator is None,
        resource.supported(left),
        resource.supported(right),
    ensures
        joint_requirements(left, right) matches Some(joint) && resource.supported(joint),
{
}

/// Work that may be a stage of a fused task.
pub open spec fn fusable(task: TemplateModel) -> bool {
    task.effects is Pure && crate::text::begins_with(task.artifact, "builtin:"@)
}

pub fn fusable_template(task: &TaskTemplate) -> (r: bool)
    ensures
        r == fusable(task@),
{
    task.effects.is_pure() && has_prefix(task.artifact.as_str(), "builtin:")
}

/// A role of which every implementation may be a stage of a fused task. A sharded role may not.
pub open spec fn fusable_role(role: LogicalRoleModel) -> bool {
    &&& role.shards.single()
    &&& forall|i: int| 0 <= i < role.implementations.len() ==> fusable((#[trigger] role.implementations[i]).task)
}

pub fn is_fusable_role(role: &LogicalRoleSpec) -> (r: bool)
    ensures
        r == fusable_role(role@),
{
    if !role.shards.is_single() {
        return false;
    }
    let mut i: usize = 0;
    while i < role.implementations.len()
        invariant
            i <= role.implementations@.len(),
            forall|j: int| 0 <= j < i ==> fusable((#[trigger] role@.implementations[j]).task),
        decreases role.implementations@.len() - i,
    {
        assert(role@.implementations[i as int] == role.implementations@[i as int]@);
        if !fusable_template(&role.implementations[i].task) {
            return false;
        }
        i = i + 1;
    }
    true
}

/// One implementation for each role of a chain, and what they require together.
pub struct FusedImplementationChoice {
    pub names: Vec<String>,
    pub tasks: Vec<TaskTemplate>,
    pub requirements: ResourceRequirements,
}

#[verifier::ext_equal]
pub struct FusedChoiceModel {
    pub names: Seq<Seq<char>>,
    pub tasks: Seq<TemplateModel>,
    pub requirements: RequirementsModel,
}

impl View for FusedImplementationChoice {
    type V = FusedChoiceModel;

    open spec fn view(&self) -> FusedChoiceModel {
        FusedChoiceModel {
            names: crate::text::views(self.names@),
            tasks: crate::text::views(self.tasks@),
            requirements: self.requirements@,
        }
    }
}

/// The choices of a single role.
pub open spec fn single_choices(implementations: Seq<ImplementationModel>) -> Seq<FusedChoiceModel> {
    Seq::new(
        implementations.len(),
        |i: int|
            FusedChoiceModel {
                names: seq![implementations[i].name],
                tasks: seq![implementations[i].task],
                requirements: implementations[i].task.requirements,
            },
    )
}

/// A choice extended by each of the first `k` implementations that its resource can also run.
pub open spec fn extended_choice(
    choice: FusedChoiceModel,
    implementations: Seq<ImplementationModel>,
    k: nat,
) -> Seq<FusedChoiceModel>
    decreases k,
{
    if k == 0 {
        Seq::empty()
    } else {
        let before = extended_choice(choice, implementations, (k - 1) as nat);
        let implementation = implementations[k - 1];
        match joint_requirements(choice.requirements, implementation.task.requirements) {
            Some(requirements) => before.push(
                FusedChoiceModel {
                    names: choice.names.push(implementation.name),
                    tasks: choice.tasks.push(implementation.task),
                    requirements,
                },
            ),
            None => before,
        }
    }
}

/// The first `m` choices, each extended by the implementations of the next role.
pub open spec fn extended_choices(
    choices: Seq<FusedChoiceModel>,
    implementations: Seq<ImplementationModel>,
    m: nat,
) -> Seq<FusedChoiceModel>
    decreases m,
{
    if m == 0 {
        Seq::empty()
    } else {
        extended_choices(choices, implementations, (m - 1) as nat) + extended_choice(
            choices[m - 1],
            implementations,
            implementations.len(),
        )
    }
}

/// The choices for the first `n` roles of a chain.
pub open spec fn fused_choices(chain: Seq<LogicalRoleModel>, n: nat) -> Seq<FusedChoiceModel>
    decreases n,
{
    if n == 0 {
        Seq::empty()
    } else if n == 1 {
        single_choices(chain[0].implementations)
    } else {
        let before = fused_choices(chain, (n - 1) as nat);
        extended_choices(before, chain[n - 1].implementations, before.len())
    }
}

fn extend_choice(
    choices: &mut Vec<FusedImplementationChoice>,
    choice: &FusedImplementationChoice,
    role: &LogicalRoleSpec,
)
    ensures
        crate::text::views(final(choices)@) == crate::text::views(old(choices)@) + extended_choice(
            choice@,
            role@.implementations,
            role@.implementations.len(),
        ),
{
    let ghost start = crate::text::views(choices@);
    let mut k: usize = 0;
    assert(start + extended_choice(choice@, role@.implementations, 0) =~= start);
    while k < role.implementations.len()
        invariant
            k <= role.implementations@.len(),
            crate::text::views(choices@) == start + extended_choice(
                choice@,
                role@.implementations,
                k as nat,
            ),
        decreases role.implementations@.len() - k,
    {
        let implementation = &role.implementations[k];
        assert(role@.implementations[k as int] == implementation@);
        if let Some(requirements) = combine_requirements(
            &choice.requirements,
            &implementation.task.requirements,
        ) {
            let mut names = choice.names.clone();
            names.push(implementation.name.clone());
            let mut tasks = choice.tasks.clone();
            tasks.push(implementation.task.clone());
            let extended = FusedImplementationChoice { names, tasks, requirements };
            let ghost before = crate::text::views(choices@);
            proof {
                assert(extended@.names =~= choice@.names.push(implementation@.name));
                assert(extended@.tasks =~= choice@.tasks.push(implementation@.task));
            }
            choices.push(extended);
            assert(crate::text::views(choices@) =~= before.push(extended@));
            assert(crate::text::views(choices@) =~= start + extended_choice(
                choice@,
                role@.implementations,
                (k + 1) as nat,
            ));
        }
        k = k + 1;
    }
}

/// Every way to pick one implementation for each role of a chain that one resource may run all of.
pub fn fused_implementation_choices(chain: &Vec<LogicalRoleSpec>, n: usize) -> (r: Vec<
    FusedImplementationChoice,
>)
    requires
        n <= chain@.len(),
    ensures
        crate::text::views(r@) == fused_choices(crate::text::views(chain@), n as nat),
{
    let ghost model = crate::text::views(chain@);
    let mut choices: Vec<FusedImplementationChoice> = Vec::new();
    if n == 0 {
        assert(crate::text::views(choices@) =~= Seq::<FusedChoiceModel>::empty());
        return choices;
    }
    let first = &chain[0];
    assert(model[0] == first@);
    let mut i: usize = 0;
    while i < first.implementations.len()
        invariant
            i <= first.implementations@.len(),
            choices@.len() == i,
            forall|j: int|
                0 <= j < i ==> (#[trigger] choices@[j])@ == single_choices(first@.implementations)[j],
        decreases first.implementations@.len() - i,
    {
        let implementation = &first.implementations[i];
        assert(first@.implementations[i as int] == implementation@);
        let mut names: Vec<String> = Vec::new();
        names.push(implementation.name.clone());
        let mut tasks: Vec<TaskTemplate> = Vec::new();
        tasks.push(implementation.task.clone());
        let choice = FusedImplementationChoice {
            names,
            tasks,
            requirements: implementation.task.requirements.clone(),
        };
        assert(choice@.names =~= seq![implementation@.name]);
        assert(choice@.tasks =~= seq![implementation@.task]);
        choices.push(choice);
        i = i + 1;
    }
    assert(crate::text::views(choices@) =~= single_choices(first@.implementations));
    let mut k: usize = 1;
    while k < n
        invariant
            1 <= k <= n <= chain@.len(),
            model == crate::text::views(chain@),
            crate::text::views(choices@) == fused_choices(model, k as nat),
        decreases n - k,
    {
        let role = &chain[k];
        assert(model[k as int] == role@);
        let ghost before = crate::text::views(choices@);
        let mut next: Vec<FusedImplementationChoice> = Vec::new();
        let mut m: usize = 0;
        assert(crate::text::views(next@) =~= extended_choices(before, role@.implementations, 0));
        while m < choices.len()
            invariant
                m <= choices@.len(),
                before == crate::text::views(choices@),
                crate::text::views(next@) == extended_choices(before, role@.implementations, m as nat),
            decreases choices@.len() - m,
        {
            assert(before[m as int] == choices@[m as int]@);
            extend_choice(&mut next, &choices[m], role);
            m = m + 1;
        }
        choices = next;
        k = k + 1;
    }
    choices
}

/// Inputs bound to the external inputs of a task.
#[verifier::ext_equal]
pub struct Bindings {
    pub inputs: Seq<PipelineInput>,
    pub externals: Seq<ObjectId>,
}

/// Where an object stands in a list, from position `i` on; the length where it does not.
pub open spec fn position_of(list: Seq<ObjectId>, object: ObjectId, i: int) -> int
    decreases list.len() - i,
{
    if i < 0 || i >= list.len() {
        list.len() as int
    } else if list[i] == object {
        i
    } else {
        position_of(list, object, i + 1)
    }
}

/// The first `k` objects bound to external inputs: to the position that an object already has, or
/// to a new one at the end.
pub open spec fn bound(objects: Seq<ObjectId>, externals: Seq<ObjectId>, k: nat) -> Bindings
    decreases k,
{
    if k == 0 {
        Bindings { inputs: Seq::empty(), externals }
    } else {
        let before = bound(objects, externals, (k - 1) as nat);
        let index = position_of(before.externals, objects[k - 1], 0);
        Bindings {
            inputs: before.inputs.push(PipelineInput::External { index: index as usize }),
            externals: if index < before.externals.len() {
                before.externals
            } else {
                before.externals.push(objects[k - 1])
            },
        }
    }
}

fn find_object(list: &Vec<ObjectId>, object: ObjectId) -> (r: usize)
    ensures
        r == position_of(list@, object, 0),
        r <= list@.len(),
{
    let mut i: usize = 0;
    while i < list.len()
        invariant
            i <= list@.len(),
            position_of(list@, object, 0) == position_of(list@, object, i as int),
        decreases list@.len() - i,
    {
        if list[i] == object {
            return i;
        }
        i = i + 1;
    }
    list.len()
}

/// Binds objects to external inputs, adding those that are not there yet.
pub fn pipeline_external_bindings(object_ids: &Vec<ObjectId>, external_inputs: &mut Vec<ObjectId>) -> (r: Vec<
    PipelineInput,
>)
    ensures
        ({
            let b = bound(object_ids@, old(external_inputs)@, object_ids@.len());
            r@ == b.inputs && final(external_inputs)@ == b.externals
        }),
{
    let mut inputs: Vec<PipelineInput> = Vec::new();
    let mut k: usize = 0;
    while k < object_ids.len()
        invariant
            k <= object_ids@.len(),
            inputs@ == bound(object_ids@, old(external_inputs)@, k as nat).inputs,
            external_inputs@ == bound(object_ids@, old(external_inputs)@, k as nat).externals,
        decreases object_ids@.len() - k,
    {
        let index: usize = find_object(external_inputs, object_ids[k]);
        if index == external_inputs.len() {
            external_inputs.push(object_ids[k]);
        }
        inputs.push(PipelineInput::External { index });
        k = k + 1;
    }
    inputs
}

/// The stages of a fused task and its external inputs.
#[verifier::ext_equal]
pub struct StagesModel {
    pub stages: Seq<StageModel>,
    pub externals: Seq<ObjectId>,
}

/// The first `n` tasks of a chain as stages: the first reads its own inputs and those of its
/// dependencies, each other one its own inputs and then the output of the stage before.
pub open spec fn fused_stages(
    tasks: Seq<TemplateModel>,
    dependency_inputs: Seq<ObjectId>,
    n: nat,
) -> StagesModel
    decreases n,
{
    if n == 0 {
        StagesModel { stages: Seq::empty(), externals: Seq::empty() }
    } else {
        let before = fused_stages(tasks, dependency_inputs, (n - 1) as nat);
        let task = tasks[n - 1];
        let objects = if n == 1 {
            task.inputs + dependency_inputs
        } else {
            task.inputs
        };
        let b = bound(objects, before.externals, objects.len());
        StagesModel {
            stages: before.stages.push(
                StageModel {
                    artifact: task.artifact,
                    entrypoint: task.entrypoint,
                    arguments: task.arguments,
                    inputs: if n == 1 {
                        b.inputs
                    } else {
                        b.inputs.push(PipelineInput::PreviousOutput)
                    },
                },
            ),
            externals: b.externals,
        }
    }
}

/// The compute times of the first `n` tasks together.
pub open spec fn total_compute(tasks: Seq<TemplateModel>, n: nat) -> Binary64
    decreases n,
{
    if n <= 1 {
        tasks[0].cost.compute_ms_on_reference
    } else {
        total_compute(tasks, (n - 1) as nat).sum(tasks[n - 1].cost.compute_ms_on_reference)
    }
}

/// The fused task of a chain of templates.
pub open spec fn fused_task(
    tasks: Seq<TemplateModel>,
    dependency_inputs: Seq<ObjectId>,
    requirements: RequirementsModel,
    id: TaskId,
) -> TaskModel {
    let parts = fused_stages(tasks, dependency_inputs, tasks.len());
    TaskModel {
        id,
        artifact: "plurifold:pipeline"@,
        entrypoint: "run"@,
        arguments: Seq::empty(),
        inputs: parts.externals,
        requirements,
        effects: EffectModel::Pure,
        cost: CostHint {
            compute_ms_on_reference: total_compute(tasks, tasks.len()),
            output_bytes: tasks.last().cost.output_bytes,
        },
        shard: None,
        pipeline: Some(PipelineModel { stages: parts.stages }),
    }
}

/// Makes one task of a chain of templates, under a random identity.
pub fn fused_pipeline_task(
    tasks: &Vec<TaskTemplate>,
    dependency_inputs: &Vec<ObjectId>,
    requirements: ResourceRequirements,
) -> (r: TaskSpec)
    requires
        tasks@.len() > 0,
    ensures
        r@ == fused_task(crate::text::views(tasks@), dependency_inputs@, requirements@, r.id),
{
    let ghost model = crate::text::views(tasks@);
    let mut external_inputs: Vec<ObjectId> = Vec::new();
    let mut stages: Vec<TaskPipelineStage> = Vec::new();
    let mut compute_ms_on_reference = tasks[0].cost.compute_ms_on_reference;
    let mut k: usize = 0;
    assert(crate::text::views(stages@) =~= Seq::<StageModel>::empty());
    while k < tasks.len()
        invariant
            k <= tasks@.len(),
            model == crate::text::views(tasks@),
            tasks@.len() > 0,
            crate::text::views(stages@) == fused_stages(model, dependency_inputs@, k as nat).stages,
            external_inputs@ == fused_stages(model, dependency_inputs@, k as nat).externals,
            compute_ms_on_reference == total_compute(model, k as nat),
        decreases tasks@.len() - k,
    {
        let task = &tasks[k];
        assert(model[k as int] == task@);
        let ghost before = crate::text::views(stages@);
        let mut objects = task.inputs.clone();
        if k == 0 {
            crate::tasks::extend_objects(&mut objects, dependency_inputs);
        } else {
            compute_ms_on_reference = compute_ms_on_reference.add(task.cost.compute_ms_on_reference);
        }
        let mut inputs = pipeline_external_bindings(&objects, &mut external_inputs);
        if k > 0 {
            inputs.push(PipelineInput::PreviousOutput);
        }
        let stage = TaskPipelineStage {
            artifact: task.artifact.clone(),
            entrypoint: task.entrypoint.clone(),
            arguments: task.arguments.clone(),
            inputs,
        };
        assert(stage@.arguments =~= task@.arguments);
        stages.push(stage);
        assert(crate::text::views(stages@) =~= before.push(stage@));
        k = k + 1;
    }
    let last = &tasks[tasks.len() - 1];
    assert(model.last() == last@);
    let task = TaskSpec {
        id: TaskId::new(),
        artifact: "plurifold:pipeline".to_owned(),
        entrypoint: "run".to_owned(),
        arguments: Vec::new(),
        inputs: external_inputs,
        requirements,
        effects: EffectSemantics::Pure,
        cost: CostHint { compute_ms_on_reference, output_bytes: last.cost.output_bytes },
        shard: None,
        pipeline: Some(TaskPipeline { stages }),
    };
    assert(task@.arguments =~= Seq::<Seq<char>>::empty());
    task
}

/// Bindings are external positions that exist, and externals only grow.
pub proof fn lemma_bound(objects: Seq<ObjectId>, externals: Seq<ObjectId>, k: nat)
    requires
        k <= objects.len(),
    ensures
        ({
            let b = bound(objects, externals, k);
            &&& b.inputs.len() == k
            &&& externals.len() <= b.externals.len()
            &&& forall|i: int|
                0 <= i < externals.len() ==> #[trigger] b.externals[i] == externals[i]
            &&& b.externals.len() <= usize::MAX ==> forall|i: int|
                0 <= i < k ==> (#[trigger] b.inputs[i] matches PipelineInput::External { index }
                    && index < b.externals.len() && b.externals[index as int] == objects[i])
        }),
    decreases k,
{
    if k > 0 {
        lemma_bound(objects, externals, (k - 1) as nat);
        let before = bound(objects, externals, (k - 1) as nat);
        lemma_position_of(before.externals, objects[k - 1], 0);
        let b = bound(objects, externals, k);
        assert forall|i: int| 0 <= i < externals.len() implies #[trigger] b.externals[i] == externals[i] by {
            assert(before.externals[i] == externals[i]);
        }
        if b.externals.len() <= usize::MAX {
            assert forall|i: int| 0 <= i < k implies (#[trigger] b.inputs[i] matches PipelineInput::External {
                index,
            } && index < b.externals.len() && b.externals[index as int] == objects[i]) by {
                if i < k - 1 {
                    assert(b.inputs[i] == before.inputs[i]);
                }
            }
        }
    }
}

proof fn lemma_position_of(list: Seq<ObjectId>, object: ObjectId, i: int)
    requires
        0 <= i <= list.len(),
    ensures
        i <= position_of(list, object, i) <= list.len(),
        position_of(list, object, i) < list.len() ==> list[position_of(list, object, i)] == object,
    decreases list.len() - i,
{
    if i < list.len() && list[i] != object {
        lemma_position_of(list, object, i + 1);
    }
}

proof fn lemma_no_previous_outputs(inputs: Seq<PipelineInput>, k: nat)
    requires
        k <= inputs.len(),
        forall|i: int| 0 <= i < k ==> !(#[trigger] inputs[i] is PreviousOutput),
    ensures
        crate::validation::previous_outputs(inputs, k) == 0,
    decreases k,
{
    if k > 0 {
        lemma_no_previous_outputs(inputs, (k - 1) as nat);
    }
}

proof fn lemma_no_dangling_input(inputs: Seq<PipelineInput>, count: nat, j: int)
    requires
        0 <= j <= inputs.len(),
        forall|i: int|
            0 <= i < inputs.len() ==> (#[trigger] inputs[i] matches PipelineInput::External { index }
                ==> index < count),
    ensures
        crate::validation::dangling_input(inputs, count, j) is None,
    decreases inputs.len() - j,
{
    if j < inputs.len() {
        lemma_no_dangling_input(inputs, count, j + 1);
        let first = inputs[j];
    }
}

/// A stage binds to external inputs that exist, and each but the first to the output before it.
spec fn sound_stage(stage: StageModel, first: bool, input_count: nat) -> bool {
    let own = if first {
        stage.inputs.len() as int
    } else {
        stage.inputs.len() - 1
    };
    &&& own >= 0
    &&& !first ==> stage.inputs.last() is PreviousOutput
    &&& forall|i: int|
        0 <= i < own ==> (#[trigger] stage.inputs[i] matches PipelineInput::External { index }
            && index < input_count)
}

proof fn lemma_fused_stages(tasks: Seq<TemplateModel>, dependency_inputs: Seq<ObjectId>, n: nat)
    requires
        n <= tasks.len(),
        fused_stages(tasks, dependency_inputs, n).externals.len() <= usize::MAX,
    ensures
        ({
            let s = fused_stages(tasks, dependency_inputs, n);
            &&& s.stages.len() == n
            &&& forall|i: int|
                0 <= i < n ==> {
                    &&& (#[trigger] s.stages[i]).artifact == tasks[i].artifact
                    &&& s.stages[i].entrypoint == tasks[i].entrypoint
                    &&& sound_stage(s.stages[i], i == 0, s.externals.len())
                }
        }),
    decreases n,
{
    if n > 0 {
        let m = (n - 1) as nat;
        let before = fused_stages(tasks, dependency_inputs, m);
        let objects = if n == 1 {
            tasks[n - 1].inputs + dependency_inputs
        } else {
            tasks[n - 1].inputs
        };
        lemma_bound(objects, before.externals, objects.len());
        lemma_fused_stages(tasks, dependency_inputs, m);
        let b = bound(objects, before.externals, objects.len());
        let s = fused_stages(tasks, dependency_inputs, n);
        let last = s.stages[n - 1];
        assert forall|i: int|
            0 <= i < b.inputs.len() implies (#[trigger] last.inputs[i] matches PipelineInput::External { index }
            && index < s.externals.len()) by {
            assert(last.inputs[i] == b.inputs[i]);
        }
        assert(sound_stage(last, n == 1, s.externals.len()));
        assert forall|i: int| 0 <= i < n implies (#[trigger] s.stages[i]).artifact == tasks[i].artifact
            && s.stages[i].entrypoint == tasks[i].entrypoint && sound_stage(
            s.stages[i],
            i == 0,
            s.externals.len(),
        ) by {
            if i < n - 1 {
                assert(s.stages[i] == before.stages[i]);
                assert(sound_stage(before.stages[i], i == 0, before.externals.len()));
            }
        }
    }
}

proof fn lemma_sound_stages(stages: Seq<StageModel>, i: int, input_count: nat)
    requires
        0 <= i <= stages.len(),
        forall|k: int|
            0 <= k < stages.len() ==> {
                &&& crate::text::begins_with((#[trigger] stages[k]).artifact, "builtin:"@)
                &&& stages[k].entrypoint == "run"@
                &&& sound_stage(stages[k], k == 0, input_count)
            },
    ensures
        crate::validation::stages_error(stages, i, input_count) is None,
    decreases stages.len() - i,
{
    if i < stages.len() {
        lemma_sound_stages(stages, i + 1, input_count);
        let stage = stages[i];
        assert(sound_stage(stage, i == 0, input_count));
        let own = if i == 0 {
            stage.inputs.len()
        } else {
            (stage.inputs.len() - 1) as nat
        };
        assert forall|k: int| 0 <= k < own implies !(#[trigger] stage.inputs[k] is PreviousOutput) by {}
        lemma_no_previous_outputs(stage.inputs, own);
        assert(crate::validation::previous_outputs(stage.inputs, stage.inputs.len()) == if i == 0 {
            0nat
        } else {
            1nat
        });
        lemma_no_dangling_input(stage.inputs, input_count, 0);
    }
}

/// The task of at least two fusable stages is a valid task, if each of them is entered by `run`.
pub proof fn law_fused_tasks_are_valid(
    tasks: Seq<TemplateModel>,
    dependency_inputs: Seq<ObjectId>,
    requirements: RequirementsModel,
    id: TaskId,
)
    requires
        tasks.len() >= 2,
        forall|i: int|
            0 <= i < tasks.len() ==> fusable(#[trigger] tasks[i]) && tasks[i].entrypoint == "run"@,
        fused_stages(tasks, dependency_inputs, tasks.len()).externals.len() <= usize::MAX,
    ensures
        crate::validation::task_error(fused_task(tasks, dependency_inputs, requirements, id)) is None,
{
    lemma_fused_stages(tasks, dependency_inputs, tasks.len());
    let s = fused_stages(tasks, dependency_inputs, tasks.len());
    assert forall|k: int| 0 <= k < s.stages.len() implies crate::text::begins_with(
        (#[trigger] s.stages[k]).artifact,
        "builtin:"@,
    ) && s.stages[k].entrypoint == "run"@ && sound_stage(s.stages[k], k == 0, s.externals.len()) by {
        assert(fusable(tasks[k]));
    }
    lemma_sound_stages(s.stages, 0, s.externals.len());
}

/// What a fused task reads is what its stages would read: every input of a stage is one of its
/// external inputs.
pub proof fn law_fused_tasks_keep_inputs(
    tasks: Seq<TemplateModel>,
    dependency_inputs: Seq<ObjectId>,
    requirements: RequirementsModel,
    id: TaskId,
    i: int,
    j: int,
)
    requires
        0 <= i < tasks.len(),
        0 <= j < tasks[i].inputs.len(),
        fused_stages(tasks, dependency_inputs, tasks.len()).externals.len() <= usize::MAX,
    ensures
        fused_task(tasks, dependency_inputs, requirements, id).inputs.contains(tasks[i].inputs[j]),
{
    lemma_stage_inputs_kept(tasks, dependency_inputs, tasks.len(), i, j);
}

proof fn lemma_stage_inputs_kept(
    tasks: Seq<TemplateModel>,
    dependency_inputs: Seq<ObjectId>,
    n: nat,
    i: int,
    j: int,
)
    requires
        0 <= i < n <= tasks.len(),
        0 <= j < tasks[i].inputs.len(),
        fused_stages(tasks, dependency_inputs, n).externals.len() <= usize::MAX,
    ensures
        fused_stages(tasks, dependency_inputs, n).externals.contains(tasks[i].inputs[j]),
    decreases n,
{
    let before = fused_stages(tasks, dependency_inputs, (n - 1) as nat);
    let objects = if n == 1 {
        tasks[n - 1].inputs + dependency_inputs
    } else {
        tasks[n - 1].inputs
    };
    lemma_bound(objects, before.externals, objects.len());
    let b = bound(objects, before.externals, objects.len());
    if i == n - 1 {
        assert(objects[j] == tasks[i].inputs[j]);
        let input = b.inputs[j];
        assert(input matches PipelineInput::External { index } && b.externals[index as int] == objects[j]);
    } else {
        lemma_stage_inputs_kept(tasks, dependency_inputs, (n - 1) as nat, i, j);
        let k = choose|k: int|
            0 <= k < before.externals.len() && before.externals[k] == tasks[i].inputs[j];
        assert(b.externals[k] == before.externals[k]);
    }
}

}

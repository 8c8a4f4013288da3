//! The snapshot planner: which implementation of each role would run where, and when.

use std::collections::BTreeMap;
use vstd::prelude::*;

use crate::binary64::Binary64;
use crate::chains::{collect_input_ids, placeholder_id, predict_object};
use crate::collections::NameMap;
use crate::ids::{ObjectId, ResourceId, TaskId};
use crate::jobs::{LogicalJobModel, LogicalJobSpec, LogicalRoleModel, LogicalRoleSpec};
use crate::objects::{ObjectMetadata, ObjectModel};
use crate::reduction_plan::{
    latest_of, reduce_objects, PlannedReduction, PlannedReductionModel, ReductionContext,
    ReductionTree, TreeModel,
};
use crate::resources::ResourceDescriptor;
use crate::scheduler::{PlacementBreakdown, TopologyAwareScheduler};
use crate::shards::{
    choose_role_shards, ContextModel, ReadyShardSelection, ShardChoice, ShardPlan, ShardPlanModel,
    ShardPlanningContext,
};
use crate::tasks::{extend_objects, TaskModel, TaskShardPartition, TaskSpec};
use crate::topology::TopologySnapshot;
use crate::validation::{validate_logical_job, PlanError, PlanErrorModel};

verus! {

broadcast use vstd::std_specs::btree::group_btree_axioms;

/// A role with the implementation and resource that were chosen for it.
pub struct ReadyRoleSelection {
    pub implementation: String,
    pub task: TaskSpec,
    pub resource_id: ResourceId,
    pub cost: PlacementBreakdown,
}

pub struct RoleChoice {
    pub implementation: Seq<char>,
    pub task: TaskModel,
    pub resource_id: ResourceId,
    pub cost: PlacementBreakdown,
}

impl View for ReadyRoleSelection {
    type V = RoleChoice;

    open spec fn view(&self) -> RoleChoice {
        RoleChoice {
            implementation: self.implementation@,
            task: self.task@,
            resource_id: self.resource_id,
            cost: self.cost,
        }
    }
}

impl RoleChoice {
    /// The same choice for a task of a given identity.
    pub open spec fn named(self, id: TaskId) -> RoleChoice {
        RoleChoice { task: TaskModel { id, ..self.task }, ..self }
    }
}

/// A selection is a given choice, up to the identity of its task.
pub open spec fn is_role_choice(selection: Option<ReadyRoleSelection>, choice: Option<RoleChoice>) -> bool {
    match selection {
        Some(s) => choice matches Some(c) && s@ == c.named(s.task.id),
        None => choice is None,
    }
}

/// The placement of a task that is only considered.
pub open spec fn considered(context: ContextModel, task: TaskModel) -> Result<
    crate::scheduler::PlacementDecision,
    crate::scheduler::ScheduleError,
> {
    crate::scheduler::chosen(
        context.risk_multiplier,
        task,
        context.resources,
        context.objects,
        context.links,
    )
}

/// The cheapest placement of one of the first `k` implementations; the first of equals.
pub open spec fn best_implementation(
    context: ContextModel,
    role: LogicalRoleModel,
    dependency_inputs: Seq<ObjectId>,
    k: nat,
) -> Option<RoleChoice>
    decreases k,
{
    if k == 0 {
        None
    } else {
        let best = best_implementation(context, role, dependency_inputs, (k - 1) as nat);
        let implementation = role.implementations[k - 1];
        let task = implementation.task.instantiated(
            dependency_inputs,
            crate::shards::anonymous(),
        );
        match considered(context, task) {
            Err(_) => best,
            Ok(decision) => match best {
                Some(current) if !decision.cost.total_ms.less(current.cost.total_ms) => best,
                _ => Some(
                    RoleChoice {
                        implementation: implementation.name,
                        task,
                        resource_id: decision.resource_id,
                        cost: decision.cost,
                    },
                ),
            },
        }
    }
}

/// Chooses the implementation of a role whose dependencies are complete.
pub fn select_ready_role(
    role: &LogicalRoleSpec,
    dependency_inputs: &Vec<ObjectId>,
    context: &ShardPlanningContext,
) -> (r: Option<ReadyRoleSelection>)
    ensures
        is_role_choice(
            r,
            best_implementation(
                context@,
                role@,
                dependency_inputs@,
                role@.implementations.len(),
            ),
        ),
{
    let mut best: Option<ReadyRoleSelection> = None;
    let mut k: usize = 0;
    while k < role.implementations.len()
        invariant
            k <= role.implementations@.len(),
            is_role_choice(
                best,
                best_implementation(context@, role@, dependency_inputs@, k as nat),
            ),
        decreases role.implementations@.len() - k,
    {
        let implementation = &role.implementations[k];
        assert(role@.implementations[k as int] == implementation@);
        let task = implementation.task.instantiate(dependency_inputs);
        proof {
            crate::chains::lemma_placement_ignores_identity(
                context@,
                task@,
                crate::shards::anonymous(),
            );
            assert((TaskModel { id: crate::shards::anonymous(), ..task@ })
                == implementation@.task.instantiated(
                dependency_inputs@,
                crate::shards::anonymous(),
            ));
        }
        if let Ok(decision) = context.scheduler.choose_placement(
            &task,
            context.resources,
            context.objects,
            context.topology,
        ) {
            let replace = match &best {
                Some(current) => decision.cost.total_ms.lt(current.cost.total_ms),
                None => true,
            };
            if replace {
                best = Some(
                    ReadyRoleSelection {
                        implementation: implementation.name.clone(),
                        task,
                        resource_id: decision.resource_id,
                        cost: decision.cost,
                    },
                );
            }
        }
        k = k + 1;
    }
    best
}

/// Where and when a shard is predicted to run.
#[derive(Clone, Copy, Debug, PartialEq)]
pub struct PlannedPlacement {
    pub resource_id: ResourceId,
    pub start_ms: Binary64,
    pub finish_ms: Binary64,
    pub compute_ms: Binary64,
    pub input_transfer_ms: Binary64,
    pub queue_ms: Binary64,
    pub startup_ms: Binary64,
    pub risk_penalty_ms: Binary64,
    pub total_ms: Binary64,
}

#[derive(Debug, PartialEq)]
pub struct PlannedShard {
    pub index: u32,
    pub implementation: String,
    pub partition: Option<TaskShardPartition>,
    pub placement: PlannedPlacement,
}

pub struct PlannedShardModel {
    pub index: u32,
    pub implementation: Seq<char>,
    pub partition: Option<TaskShardPartition>,
    pub placement: PlannedPlacement,
}

impl View for PlannedShard {
    type V = PlannedShardModel;

    open spec fn view(&self) -> PlannedShardModel {
        PlannedShardModel {
            index: self.index,
            implementation: self.implementation@,
            partition: self.partition,
            placement: self.placement,
        }
    }
}

impl Clone for PlannedShard {
    fn clone(&self) -> (r: PlannedShard)
        ensures
            r@ == self@,
    {
        PlannedShard {
            index: self.index,
            implementation: self.implementation.clone(),
            partition: self.partition,
            placement: self.placement,
        }
    }
}

#[derive(Debug, PartialEq)]
pub struct PlannedRole {
    pub name: String,
    pub shards: Vec<PlannedShard>,
    /// The reducers that bring the contributions of the shards together, level by level.
    pub reductions: Vec<PlannedReduction>,
}

#[verifier::ext_equal]
pub struct PlannedRoleModel {
    pub name: Seq<char>,
    pub shards: Seq<PlannedShardModel>,
    pub reductions: Seq<PlannedReductionModel>,
}

impl View for PlannedRole {
    type V = PlannedRoleModel;

    open spec fn view(&self) -> PlannedRoleModel {
        PlannedRoleModel {
            name: self.name@,
            shards: crate::text::views(self.shards@),
            reductions: crate::text::views(self.reductions@),
        }
    }
}

impl Clone for PlannedRole {
    fn clone(&self) -> (r: PlannedRole)
        ensures
            r@ == self@,
    {
        let r = PlannedRole {
            name: self.name.clone(),
            shards: self.shards.clone(),
            reductions: self.reductions.clone(),
        };
        assert(r@.shards =~= self@.shards);
        assert(r@.reductions =~= self@.reductions);
        r
    }
}

/// A prediction for a whole logical job.
#[derive(Debug, PartialEq)]
pub struct CooperativePlan {
    pub roles: Vec<PlannedRole>,
    pub estimated_makespan_ms: Binary64,
}

#[verifier::ext_equal]
pub struct PlanModel {
    pub roles: Seq<PlannedRoleModel>,
    pub estimated_makespan_ms: Binary64,
}

impl View for CooperativePlan {
    type V = PlanModel;

    open spec fn view(&self) -> PlanModel {
        PlanModel {
            roles: crate::text::views(self.roles@),
            estimated_makespan_ms: self.estimated_makespan_ms,
        }
    }
}

impl Clone for CooperativePlan {
    fn clone(&self) -> (r: CooperativePlan)
        ensures
            r@ == self@,
    {
        let r = CooperativePlan {
            roles: self.roles.clone(),
            estimated_makespan_ms: self.estimated_makespan_ms,
        };
        assert(r@.roles =~= self@.roles);
        r
    }
}

/// A role that is already planned.
pub struct SelectedRole {
    pub outputs: Vec<ObjectId>,
    pub finish_ms: Binary64,
    pub planned: PlannedRole,
}

#[verifier::ext_equal]
pub struct SelectedModel {
    pub outputs: Seq<ObjectId>,
    pub finish_ms: Binary64,
    pub planned: PlannedRoleModel,
}

impl View for SelectedRole {
    type V = SelectedModel;

    open spec fn view(&self) -> SelectedModel {
        SelectedModel {
            outputs: self.outputs@,
            finish_ms: self.finish_ms,
            planned: self.planned@,
        }
    }
}

/// What is predicted while a plan is being made.
#[verifier::ext_equal]
pub struct PlanState {
    pub objects: Map<u128, ObjectModel>,
    pub availability: Map<u128, Binary64>,
    pub selected: Map<Seq<char>, SelectedModel>,
}

/// The outputs of the first `k` dependencies, in order.
pub open spec fn planned_inputs(
    selected: Map<Seq<char>, SelectedModel>,
    depends_on: Seq<Seq<char>>,
    k: nat,
) -> Seq<ObjectId>
    decreases k,
{
    if k == 0 {
        Seq::empty()
    } else {
        let before = planned_inputs(selected, depends_on, (k - 1) as nat);
        let name = depends_on[k - 1];
        if selected.contains_key(name) {
            before + selected[name].outputs
        } else {
            before
        }
    }
}

/// When the first `k` of some roles are all done.
pub open spec fn planned_ready(
    selected: Map<Seq<char>, SelectedModel>,
    names: Seq<Seq<char>>,
    k: nat,
) -> Binary64
    decreases k,
{
    if k == 0 {
        Binary64 { bits: 0 }
    } else {
        let before = planned_ready(selected, names, (k - 1) as nat);
        if selected.contains_key(names[k - 1]) {
            before.maximum(selected[names[k - 1]].finish_ms)
        } else {
            before
        }
    }
}

/// A role that is not planned yet, but whose dependencies are.
pub open spec fn plannable(selected: Map<Seq<char>, SelectedModel>, role: LogicalRoleModel) -> bool {
    &&& !selected.contains_key(role.name)
    &&& forall|j: int|
        0 <= j < role.depends_on.len() ==> selected.contains_key(#[trigger] role.depends_on[j])
}

/// On how many of the first `m` resources a task can run.
pub open spec fn feasible_resources(context: ContextModel, task: TaskModel, m: nat) -> nat
    decreases m,
{
    if m == 0 {
        0
    } else {
        let before = feasible_resources(context, task, (m - 1) as nat);
        if context.placed(task, context.resources[m - 1]) is Some {
            before + 1
        } else {
            before
        }
    }
}

/// How many pairs of one of the first `k` implementations and a resource are feasible.
pub open spec fn feasible_pairs(
    context: ContextModel,
    role: LogicalRoleModel,
    dependency_inputs: Seq<ObjectId>,
    k: nat,
) -> nat
    decreases k,
{
    if k == 0 {
        0
    } else {
        feasible_pairs(context, role, dependency_inputs, (k - 1) as nat) + feasible_resources(
            context,
            role.implementations[k - 1].task.instantiated(
                dependency_inputs,
                crate::shards::anonymous(),
            ),
            context.resources.len(),
        )
    }
}

/// How many candidates a role has, given what is planned so far.
pub open spec fn candidates_of(
    context: ContextModel,
    role: LogicalRoleModel,
    selected: Map<Seq<char>, SelectedModel>,
) -> nat {
    feasible_pairs(
        context,
        role,
        planned_inputs(selected, role.depends_on, role.depends_on.len()),
        role.implementations.len(),
    )
}

/// The most constrained plannable role among the first `n`; the first of equals.
pub open spec fn next_role(
    context: ContextModel,
    roles: Seq<LogicalRoleModel>,
    selected: Map<Seq<char>, SelectedModel>,
    n: nat,
) -> Option<int>
    decreases n,
{
    if n == 0 {
        None
    } else {
        let best = next_role(context, roles, selected, (n - 1) as nat);
        if !plannable(selected, roles[n - 1]) {
            best
        } else {
            match best {
                Some(current) if candidates_of(context, roles[current], selected) <= candidates_of(
                    context,
                    roles[n - 1],
                    selected,
                ) => best,
                _ => Some(n - 1),
            }
        }
    }
}

/// Where and when a chosen task is predicted to run.
pub open spec fn planned_placement(choice: ShardChoice) -> PlannedPlacement {
    PlannedPlacement {
        resource_id: choice.resource_id,
        start_ms: choice.start_ms,
        finish_ms: choice.finish(),
        compute_ms: choice.cost.compute_ms,
        input_transfer_ms: choice.cost.input_transfer_ms,
        queue_ms: choice.cost.queue_ms,
        startup_ms: choice.cost.startup_ms,
        risk_penalty_ms: choice.cost.risk_penalty_ms,
        total_ms: choice.cost.total_ms,
    }
}

pub(crate) fn placement_of(selection: &ReadyShardSelection) -> (r: PlannedPlacement)
    ensures
        r == planned_placement(selection@),
{
    PlannedPlacement {
        resource_id: selection.resource_id,
        start_ms: selection.start_ms,
        finish_ms: selection.finish_ms(),
        compute_ms: selection.cost.compute_ms,
        input_transfer_ms: selection.cost.input_transfer_ms,
        queue_ms: selection.cost.queue_ms,
        startup_ms: selection.cost.startup_ms,
        risk_penalty_ms: selection.cost.risk_penalty_ms,
        total_ms: selection.cost.total_ms,
    }
}

/// A chosen shard as part of a plan.
pub open spec fn planned_shard(choice: ShardChoice) -> PlannedShardModel {
    PlannedShardModel {
        index: choice.index,
        implementation: choice.implementation,
        partition: match choice.task.shard {
            Some(shard) => shard.partition,
            None => None,
        },
        placement: planned_placement(choice),
    }
}

/// Known objects, the predicted outputs of some shards, and when these are there.
#[verifier::ext_equal]
pub struct OutputsModel {
    pub objects: Map<u128, ObjectModel>,
    pub outputs: Seq<ObjectId>,
    pub ready: Map<u128, Binary64>,
}

/// The predicted outputs of the first `k` shards, each at the resource of its shard.
pub open spec fn predicted_outputs(
    objects: Map<u128, ObjectModel>,
    mentioned: Seq<u128>,
    choices: Seq<ShardChoice>,
    k: nat,
) -> OutputsModel
    decreases k,
{
    if k == 0 {
        OutputsModel { objects, outputs: Seq::empty(), ready: Map::empty() }
    } else {
        let before = predicted_outputs(objects, mentioned, choices, (k - 1) as nat);
        let id = crate::chains::placeholder(before.objects, mentioned);
        let choice = choices[k - 1];
        OutputsModel {
            objects: before.objects.insert(
                id.0,
                crate::chains::predicted_object(
                    id,
                    choice.task.cost.output_bytes,
                    choice.resource_id,
                ),
            ),
            outputs: before.outputs.push(id),
            ready: before.ready.insert(id.0, choice.finish()),
        }
    }
}

/// What is predicted of the shards of a role and of the reducers that bring their contributions
/// together, if there are any; `None` where nothing can run one of these.
pub open spec fn brought_together(
    context: ContextModel,
    mentioned: Seq<u128>,
    role: LogicalRoleModel,
    ready_ms: Binary64,
    plan: ShardPlanModel,
) -> Option<TreeModel> {
    let o = predicted_outputs(context.objects, mentioned, plan.choices, plan.choices.len());
    let tree = TreeModel {
        objects: o.objects,
        availability: plan.availability,
        left: o.outputs,
        ready: o.ready,
        reductions: Seq::empty(),
    };
    match role.reduction {
        None => Some(tree),
        Some(reduction) => crate::reduction_plan::reduced(
            ContextModel { objects: Map::empty(), ..context },
            mentioned,
            reduction,
            ready_ms,
            0,
            tree,
            tree.left.len(),
        ),
    }
}

/// A planned role: it is done when all of its shards and reducers are.
pub open spec fn settled(
    role: LogicalRoleModel,
    ready_ms: Binary64,
    choices: Seq<ShardChoice>,
    tree: TreeModel,
) -> SelectedModel {
    SelectedModel {
        outputs: tree.left,
        finish_ms: crate::reduction_plan::latest_reduction(
            tree.reductions,
            crate::shards::latest_finish(choices, ready_ms, choices.len()),
            tree.reductions.len(),
        ),
        planned: PlannedRoleModel {
            name: role.name,
            shards: Seq::new(choices.len(), |i: int| planned_shard(choices[i])),
            reductions: tree.reductions,
        },
    }
}

/// What is predicted after one more role.
pub open spec fn after_role(
    state: PlanState,
    role: LogicalRoleModel,
    ready_ms: Binary64,
    choices: Seq<ShardChoice>,
    tree: TreeModel,
) -> PlanState {
    PlanState {
        objects: tree.objects,
        availability: tree.availability,
        selected: state.selected.insert(role.name, settled(role, ready_ms, choices, tree)),
    }
}

/// Every role is planned.
pub open spec fn all_planned(selected: Map<Seq<char>, SelectedModel>, roles: Seq<LogicalRoleModel>) -> bool {
    forall|i: int| 0 <= i < roles.len() ==> selected.contains_key((#[trigger] roles[i]).name)
}

/// Plans the remaining roles one after the other, in at most `steps` steps.
pub open spec fn planned_from(
    context: ContextModel,
    roles: Seq<LogicalRoleModel>,
    mentioned: Seq<u128>,
    state: PlanState,
    steps: nat,
) -> Result<PlanState, PlanErrorModel>
    decreases steps,
{
    if all_planned(state.selected, roles) {
        Ok(state)
    } else {
        let now = ContextModel { objects: state.objects, ..context };
        match next_role(now, roles, state.selected, roles.len()) {
            Some(i) if steps > 0 => {
                let role = roles[i];
                let ready_ms = planned_ready(state.selected, role.depends_on, role.depends_on.len());
                match crate::shards::role_shards(
                    now,
                    role,
                    planned_inputs(state.selected, role.depends_on, role.depends_on.len()),
                    ready_ms,
                    state.availability,
                ) {
                    None => Err(PlanErrorModel::NoFeasibleImplementation(role.name)),
                    Some(plan) => match brought_together(now, mentioned, role, ready_ms, plan) {
                        None => Err(PlanErrorModel::NoFeasibleImplementation(role.name)),
                        Some(tree) => planned_from(
                            context,
                            roles,
                            mentioned,
                            after_role(state, role, ready_ms, plan.choices, tree),
                            (steps - 1) as nat,
                        ),
                    },
                }
            },
            _ => Err(
                PlanErrorModel::InvalidLogicalJob("role dependency graph contains a cycle"@),
            ),
        }
    }
}

/// The plan of a logical job.
pub open spec fn planned(context: ContextModel, job: LogicalJobModel) -> Result<PlanModel, PlanErrorModel> {
    match crate::validation::submission_error(job, context.objects) {
        Some(message) => Err(PlanErrorModel::InvalidLogicalJob(message)),
        None => match planned_from(
            context,
            job.roles,
            crate::chains::role_input_ids(job.roles, job.roles.len()),
            PlanState {
                objects: context.objects,
                availability: Map::empty(),
                selected: Map::empty(),
            },
            job.roles.len(),
        ) {
            Err(error) => Err(error),
            Ok(state) => Ok(
                PlanModel {
                    roles: Seq::new(
                        job.roles.len(),
                        |i: int| state.selected[job.roles[i].name].planned,
                    ),
                    estimated_makespan_ms: planned_ready(
                        state.selected,
                        job.outputs,
                        job.outputs.len(),
                    ),
                },
            ),
        },
    }
}

fn collect_inputs(selected: &NameMap<SelectedRole>, depends_on: &Vec<String>) -> (r: Vec<ObjectId>)
    ensures
        r@ == planned_inputs(
            crate::collections::name_views(selected@),
            crate::text::views(depends_on@),
            depends_on@.len(),
        ),
{
    let ghost model = crate::collections::name_views(selected@);
    let ghost names = crate::text::views(depends_on@);
    let mut inputs: Vec<ObjectId> = Vec::new();
    let mut k: usize = 0;
    while k < depends_on.len()
        invariant
            k <= depends_on@.len(),
            model == crate::collections::name_views(selected@),
            names == crate::text::views(depends_on@),
            inputs@ == planned_inputs(model, names, k as nat),
        decreases depends_on@.len() - k,
    {
        assert(names[k as int] == depends_on@[k as int]@);
        if let Some(role) = selected.get(depends_on[k].as_str()) {
            assert(model[names[k as int]] == role@);
            extend_objects(&mut inputs, &role.outputs);
        }
        k = k + 1;
    }
    inputs
}

fn ready_time(selected: &NameMap<SelectedRole>, roles: &Vec<String>) -> (r: Binary64)
    ensures
        r == planned_ready(
            crate::collections::name_views(selected@),
            crate::text::views(roles@),
            roles@.len(),
        ),
{
    let ghost model = crate::collections::name_views(selected@);
    let ghost names = crate::text::views(roles@);
    let mut ready = Binary64::from_bits(0);
    let mut k: usize = 0;
    while k < roles.len()
        invariant
            k <= roles@.len(),
            model == crate::collections::name_views(selected@),
            names == crate::text::views(roles@),
            ready == planned_ready(model, names, k as nat),
        decreases roles@.len() - k,
    {
        assert(names[k as int] == roles@[k as int]@);
        if let Some(role) = selected.get(roles[k].as_str()) {
            assert(model[names[k as int]] == role@);
            ready = ready.max(role.finish_ms);
        }
        k = k + 1;
    }
    ready
}

fn is_plannable(selected: &NameMap<SelectedRole>, role: &LogicalRoleSpec) -> (r: bool)
    ensures
        r == plannable(crate::collections::name_views(selected@), role@),
{
    if selected.contains_key(role.name.as_str()) {
        return false;
    }
    let ghost model = crate::collections::name_views(selected@);
    let mut j: usize = 0;
    while j < role.depends_on.len()
        invariant
            j <= role.depends_on@.len(),
            model == crate::collections::name_views(selected@),
            forall|k: int| 0 <= k < j ==> model.contains_key(#[trigger] role@.depends_on[k]),
        decreases role.depends_on@.len() - j,
    {
        assert(role@.depends_on[j as int] == role.depends_on@[j as int]@);
        if !selected.contains_key(role.depends_on[j].as_str()) {
            return false;
        }
        j = j + 1;
    }
    true
}

fn count_resources(context: &ShardPlanningContext, task: &TaskSpec) -> (r: usize)
    ensures
        r == feasible_resources(
            context@,
            (TaskModel { id: crate::shards::anonymous(), ..task@ }),
            context@.resources.len(),
        ),
{
    let ghost model = TaskModel { id: crate::shards::anonymous(), ..task@ };
    let mut count: usize = 0;
    let mut m: usize = 0;
    while m < context.resources.len()
        invariant
            count <= m <= context.resources@.len(),
            model == (TaskModel { id: crate::shards::anonymous(), ..task@ }),
            count == feasible_resources(context@, model, m as nat),
        decreases context.resources@.len() - m,
    {
        let resource = &context.resources[m];
        assert(context@.resources[m as int] == resource@);
        proof {
            crate::shards::lemma_identity_does_not_matter(
                context@,
                task@,
                crate::shards::anonymous(),
                resource@,
            );
        }
        if context.scheduler.placement_cost(
            task,
            resource,
            context.objects,
            context.topology,
        ).is_some() {
            count = count + 1;
        }
        m = m + 1;
    }
    count
}

/// How many pairs of an implementation and a resource are feasible for a role.
fn feasible_candidate_count(
    context: &ShardPlanningContext,
    role: &LogicalRoleSpec,
    selected: &NameMap<SelectedRole>,
) -> (r: u128)
    ensures
        r == candidates_of(context@, role@, crate::collections::name_views(selected@)),
{
    let dependency_inputs = collect_inputs(selected, &role.depends_on);
    let mut count: u128 = 0;
    let mut k: usize = 0;
    while k < role.implementations.len()
        invariant
            k <= role.implementations@.len(),
            count <= k * (usize::MAX as int),
            count == feasible_pairs(context@, role@, dependency_inputs@, k as nat),
        decreases role.implementations@.len() - k,
    {
        let implementation = &role.implementations[k];
        assert(role@.implementations[k as int] == implementation@);
        let task = implementation.task.instantiate(&dependency_inputs);
        assert((TaskModel { id: crate::shards::anonymous(), ..task@ })
            == implementation@.task.instantiated(
            dependency_inputs@,
            crate::shards::anonymous(),
        ));
        let feasible: usize = count_resources(context, &task);
        proof {
            let limit = usize::MAX as int;
            assert(k * limit + limit == (k + 1) * limit) by (nonlinear_arith);
            assert((k + 1) * limit <= 0xffff_ffff_ffff_ffff * 0xffff_ffff_ffff_ffff) by (nonlinear_arith)
                requires
                    0 <= k + 1 <= 0xffff_ffff_ffff_ffff,
                    0 <= limit <= 0xffff_ffff_ffff_ffff,
            ;
        }
        count = count + feasible as u128;
        k = k + 1;
    }
    count
}

fn find_next_role(
    context: &ShardPlanningContext,
    roles: &Vec<LogicalRoleSpec>,
    selected: &NameMap<SelectedRole>,
) -> (r: Option<usize>)
    ensures
        match r {
            Some(i) => i < roles@.len() && next_role(
                context@,
                crate::text::views(roles@),
                crate::collections::name_views(selected@),
                roles@.len(),
            ) == Some(i as int),
            None => next_role(
                context@,
                crate::text::views(roles@),
                crate::collections::name_views(selected@),
                roles@.len(),
            ) is None,
        },
{
    let ghost model = crate::text::views(roles@);
    let ghost chosen = crate::collections::name_views(selected@);
    let mut best: Option<usize> = None;
    let mut best_count: u128 = 0;
    let mut n: usize = 0;
    while n < roles.len()
        invariant
            n <= roles@.len(),
            model == crate::text::views(roles@),
            chosen == crate::collections::name_views(selected@),
            match best {
                Some(i) => i < n && next_role(context@, model, chosen, n as nat) == Some(i as int)
                    && best_count == candidates_of(context@, model[i as int], chosen),
                None => next_role(context@, model, chosen, n as nat) is None,
            },
        decreases roles@.len() - n,
    {
        let role = &roles[n];
        assert(model[n as int] == role@);
        if is_plannable(selected, role) {
            let count: u128 = feasible_candidate_count(context, role, selected);
            let replace = match &best {
                Some(_) => count < best_count,
                None => true,
            };
            if replace {
                best = Some(n);
                best_count = count;
            }
        }
        n = n + 1;
    }
    best
}

fn is_all_planned(selected: &NameMap<SelectedRole>, roles: &Vec<LogicalRoleSpec>) -> (r: bool)
    ensures
        r == all_planned(
            crate::collections::name_views(selected@),
            crate::text::views(roles@),
        ),
{
    let ghost model = crate::text::views(roles@);
    let ghost chosen = crate::collections::name_views(selected@);
    let mut i: usize = 0;
    while i < roles.len()
        invariant
            i <= roles@.len(),
            model == crate::text::views(roles@),
            chosen == crate::collections::name_views(selected@),
            forall|j: int| 0 <= j < i ==> chosen.contains_key((#[trigger] model[j]).name),
        decreases roles@.len() - i,
    {
        assert(model[i as int].name == roles@[i as int].name@);
        if !selected.contains_key(roles[i].name.as_str()) {
            return false;
        }
        i = i + 1;
    }
    true
}

/// Predicts the outputs of the shards of a role, and how they are brought together; `None` where
/// nothing can run a reducer.
fn settle_role(
    context: &ReductionContext,
    objects: BTreeMap<u128, ObjectMetadata>,
    role: &LogicalRoleSpec,
    ready_ms: Binary64,
    plan: ShardPlan,
    Ghost(model): Ghost<ShardPlanModel>,
) -> (r: Option<(SelectedRole, ReductionTree)>)
    requires
        crate::shards::is_plan(Some(plan), Some(model)),
    ensures
        ({
            let tree = brought_together(
                ContextModel {
                    objects: crate::collections::modeled(objects@),
                    ..context.model()
                },
                context.mentioned@,
                role@,
                ready_ms,
                model,
            );
            match r {
                Some(done) => tree == Some(done.1@) && done.0@ == settled(
                    role@,
                    ready_ms,
                    model.choices,
                    done.1@,
                ),
                None => tree is None,
            }
        }),
{
    let ghost start = crate::collections::modeled(objects@);
    let ghost choices = model.choices;
    let mut objects = objects;
    let shards = plan.selections;
    let mut left: Vec<ObjectId> = Vec::new();
    let mut ready: BTreeMap<u128, Binary64> = BTreeMap::new();
    let mut planned_shards: Vec<PlannedShard> = Vec::new();
    let mut finish_ms = ready_ms;
    let mut k: usize = 0;
    while k < shards.len()
        invariant
            k <= shards@.len(),
            crate::shards::are_choices(shards@, choices),
            crate::collections::modeled(objects@) == predicted_outputs(
                start,
                context.mentioned@,
                choices,
                k as nat,
            ).objects,
            left@ == predicted_outputs(start, context.mentioned@, choices, k as nat).outputs,
            ready@ == predicted_outputs(start, context.mentioned@, choices, k as nat).ready,
            finish_ms == crate::shards::latest_finish(choices, ready_ms, k as nat),
            planned_shards@.len() == k,
            forall|j: int| 0 <= j < k ==> (#[trigger] planned_shards@[j])@ == planned_shard(choices[j]),
        decreases shards@.len() - k,
    {
        let shard = &shards[k];
        assert(shard@ == choices[k as int].named(shard.task.id));
        let shard_finish_ms = shard.finish_ms();
        finish_ms = finish_ms.max(shard_finish_ms);
        let output = placeholder_id(&objects, context.mentioned);
        let ghost before = crate::collections::modeled(objects@);
        objects.insert(
            output.0,
            predict_object(output, shard.task.cost.output_bytes, shard.resource_id),
        );
        assert(crate::collections::modeled(objects@) =~= before.insert(
            output.0,
            crate::chains::predicted_object(
                output,
                choices[k as int].task.cost.output_bytes,
                choices[k as int].resource_id,
            ),
        ));
        left.push(output);
        ready.insert(output.0, shard_finish_ms);
        let partition = match &shard.task.shard {
            Some(shard) => shard.partition,
            None => None,
        };
        planned_shards.push(
            PlannedShard {
                index: shard.index,
                implementation: shard.implementation.clone(),
                partition,
                placement: placement_of(shard),
            },
        );
        k = k + 1;
    }
    let tree = ReductionTree {
        objects,
        availability: plan.availability,
        left,
        ready,
        reductions: Vec::new(),
    };
    assert(tree@.reductions =~= Seq::<PlannedReductionModel>::empty());
    let tree = match &role.reduction {
        None => tree,
        Some(reduction) => match reduce_objects(context, reduction, ready_ms, tree) {
            None => {
                return None;
            },
            Some(tree) => tree,
        },
    };
    let finish_ms = latest_of(&tree.reductions, finish_ms);
    let planned = PlannedRole {
        name: role.name.clone(),
        shards: planned_shards,
        reductions: tree.reductions.clone(),
    };
    assert(planned@.shards =~= Seq::new(choices.len(), |i: int| planned_shard(choices[i])));
    assert(planned@.reductions =~= tree@.reductions);
    let outputs = tree.left.clone();
    Some((SelectedRole { outputs, finish_ms, planned }, tree))
}

/// Predicts how a logical job would run on the given resources: for each role the implementation and
/// resource of each of its shards, and the time until its outputs are there.
pub fn plan(
    spec: &LogicalJobSpec,
    scheduler: &TopologyAwareScheduler,
    resources: &Vec<ResourceDescriptor>,
    objects: &BTreeMap<u128, ObjectMetadata>,
    topology: &TopologySnapshot,
) -> (r: Result<CooperativePlan, PlanError>)
    ensures
        ({
            let context = ContextModel {
                risk_multiplier: scheduler.risk_multiplier,
                resources: crate::text::views(resources@),
                objects: crate::collections::modeled(objects@),
                links: topology@,
            };
            match r {
                Ok(plan) => planned(context, spec@) == Ok::<PlanModel, PlanErrorModel>(plan@),
                Err(error) => planned(context, spec@) == Err::<PlanModel, PlanErrorModel>(error@),
            }
        }),
{
    if let Err(error) = validate_logical_job(spec, objects) {
        return Err(error);
    }
    let ghost base = ContextModel {
        risk_multiplier: scheduler.risk_multiplier,
        resources: crate::text::views(resources@),
        objects: crate::collections::modeled(objects@),
        links: topology@,
    };
    let ghost model = crate::text::views(spec.roles@);
    let mentioned = collect_input_ids(&spec.roles);
    let mut predicted = objects.clone();
    let mut availability: BTreeMap<u128, Binary64> = BTreeMap::new();
    let mut selected: NameMap<SelectedRole> = NameMap::new();
    let ghost mut state = PlanState {
        objects: base.objects,
        availability: Map::<u128, Binary64>::empty(),
        selected: Map::<Seq<char>, SelectedModel>::empty(),
    };
    assert(crate::collections::name_views(selected@) =~= state.selected);
    let mut steps: usize = spec.roles.len();
    let ghost result = planned_from(base, model, mentioned@, state, steps as nat);
    while !is_all_planned(&selected, &spec.roles)
        invariant
            model == spec@.roles,
            model == crate::text::views(spec.roles@),
            mentioned@ == crate::chains::role_input_ids(model, model.len()),
            base == (ContextModel {
                risk_multiplier: scheduler.risk_multiplier,
                resources: crate::text::views(resources@),
                objects: crate::collections::modeled(objects@),
                links: topology@,
            }),
            crate::validation::submission_error(spec@, base.objects) is None,
            state.objects == crate::collections::modeled(predicted@),
            state.availability == availability@,
            state.selected == crate::collections::name_views(selected@),
            result == planned_from(base, model, mentioned@, state, steps as nat),
            result == planned_from(
                base,
                model,
                mentioned@,
                PlanState {
                    objects: base.objects,
                    availability: Map::<u128, Binary64>::empty(),
                    selected: Map::<Seq<char>, SelectedModel>::empty(),
                },
                model.len(),
            ),
        decreases steps,
    {
        let ghost now = ContextModel { objects: state.objects, ..base };
        let context = ShardPlanningContext { scheduler, resources, objects: &predicted, topology };
        assert(context@ == now);
        let index: usize = match find_next_role(&context, &spec.roles, &selected) {
            Some(index) if steps > 0 => index,
            _ => {
                return Err(
                    PlanError::InvalidLogicalJob("role dependency graph contains a cycle".to_owned()),
                );
            },
        };
        let role = &spec.roles[index];
        assert(model[index as int] == role@);
        let dependency_inputs = collect_inputs(&selected, &role.depends_on);
        let ready_ms = ready_time(&selected, &role.depends_on);
        let ghost found = crate::shards::role_shards(
            now,
            role@,
            dependency_inputs@,
            ready_ms,
            state.availability,
        );
        match choose_role_shards(role, &dependency_inputs, ready_ms, &availability, &context) {
            None => {
                return Err(PlanError::NoFeasibleImplementation(role.name.clone()));
            },
            Some(shards) => {
                let ghost chosen = found.unwrap();
                let reducers = ReductionContext {
                    scheduler,
                    resources,
                    topology,
                    mentioned: &mentioned,
                };
                assert((ContextModel { objects: Map::empty(), ..now }) == reducers.model());
                match settle_role(&reducers, predicted, role, ready_ms, shards, Ghost(chosen)) {
                    None => {
                        return Err(PlanError::NoFeasibleImplementation(role.name.clone()));
                    },
                    Some((settled, tree)) => {
                        proof {
                            state = after_role(state, role@, ready_ms, chosen.choices, tree@);
                        }
                        predicted = tree.objects;
                        availability = tree.availability;
                        selected.insert(role.name.clone(), settled);
                        assert(crate::collections::name_views(selected@) =~= state.selected);
                    },
                }
            },
        }
        steps = steps - 1;
    }
    let mut roles: Vec<PlannedRole> = Vec::new();
    let mut i: usize = 0;
    while i < spec.roles.len()
        invariant
            i <= spec.roles@.len(),
            model == crate::text::views(spec.roles@),
            state.selected == crate::collections::name_views(selected@),
            all_planned(state.selected, model),
            roles@.len() == i,
            forall|j: int|
                0 <= j < i ==> (#[trigger] roles@[j])@ == state.selected[model[j].name].planned,
        decreases spec.roles@.len() - i,
    {
        assert(model[i as int].name == spec.roles@[i as int].name@);
        assert(state.selected.contains_key(model[i as int].name));
        if let Some(role) = selected.get(spec.roles[i].name.as_str()) {
            roles.push(role.planned.clone());
        }
        i = i + 1;
    }
    let plan = CooperativePlan {
        roles,
        estimated_makespan_ms: ready_time(&selected, &spec.outputs),
    };
    assert(plan@.roles =~= Seq::new(model.len(), |i: int| state.selected[model[i].name].planned));
    Ok(plan)
}

/// How many of the first `n` roles are not planned.
spec fn unplanned(selected: Map<Seq<char>, SelectedModel>, roles: Seq<LogicalRoleModel>, n: nat) -> nat
    decreases n,
{
    if n == 0 {
        0
    } else {
        let before = unplanned(selected, roles, (n - 1) as nat);
        if selected.contains_key(roles[n - 1].name) {
            before
        } else {
            before + 1
        }
    }
}

proof fn lemma_unplanned_decreases(
    selected: Map<Seq<char>, SelectedModel>,
    roles: Seq<LogicalRoleModel>,
    n: nat,
    i: int,
    role: SelectedModel,
)
    requires
        n <= roles.len(),
        0 <= i < roles.len(),
        !selected.contains_key(roles[i].name),
    ensures
        unplanned(selected.insert(roles[i].name, role), roles, n) <= unplanned(selected, roles, n),
        i < n ==> unplanned(selected.insert(roles[i].name, role), roles, n) < unplanned(
            selected,
            roles,
            n,
        ),
    decreases n,
{
    if n > 0 {
        lemma_unplanned_decreases(selected, roles, (n - 1) as nat, i, role);
    }
}

proof fn lemma_unplanned_is_positive(
    selected: Map<Seq<char>, SelectedModel>,
    roles: Seq<LogicalRoleModel>,
    n: nat,
    i: int,
)
    requires
        0 <= i < n <= roles.len(),
        !selected.contains_key(roles[i].name),
    ensures
        unplanned(selected, roles, n) > 0,
    decreases n,
{
    if i < n - 1 {
        lemma_unplanned_is_positive(selected, roles, (n - 1) as nat, i);
    }
}

proof fn lemma_unplanned_bound(
    selected: Map<Seq<char>, SelectedModel>,
    roles: Seq<LogicalRoleModel>,
    n: nat,
)
    ensures
        unplanned(selected, roles, n) <= n,
    decreases n,
{
    if n > 0 {
        lemma_unplanned_bound(selected, roles, (n - 1) as nat);
    }
}

/// A next role is found wherever one of the first `n` is plannable, and is plannable itself.
proof fn lemma_next_role(
    context: ContextModel,
    roles: Seq<LogicalRoleModel>,
    selected: Map<Seq<char>, SelectedModel>,
    n: nat,
)
    requires
        n <= roles.len(),
    ensures
        match next_role(context, roles, selected, n) {
            Some(i) => 0 <= i < n && plannable(selected, roles[i]),
            None => forall|i: int| 0 <= i < n ==> !plannable(selected, #[trigger] roles[i]),
        },
    decreases n,
{
    if n > 0 {
        lemma_next_role(context, roles, selected, (n - 1) as nat);
    }
}

/// As long as not every role of a sound graph is planned, one is plannable.
proof fn lemma_progress(roles: Seq<LogicalRoleModel>, outputs: Seq<Seq<char>>, selected: Map<Seq<char>, SelectedModel>)
    requires
        crate::role_graph::graph_error(crate::validation::logical_graph(roles), outputs) is None,
        !all_planned(selected, roles),
    ensures
        exists|i: int| 0 <= i < roles.len() && plannable(selected, #[trigger] roles[i]),
{
    let graph = crate::validation::logical_graph(roles);
    crate::role_graph::law_accepted_graphs_are_well_formed(graph, outputs);
    let missing = choose|i: int|
        0 <= i < roles.len() && !selected.contains_key((#[trigger] roles[i]).name);
    let first = crate::role_graph::lemma_first_unresolved(graph, selected.dom(), missing);
    assert(plannable(selected, roles[first])) by {
        assert(graph[first].name == roles[first].name);
        assert forall|j: int| 0 <= j < roles[first].depends_on.len() implies selected.contains_key(
            #[trigger] roles[first].depends_on[j],
        ) by {
            assert(graph[first].depends_on[j] == roles[first].depends_on[j]);
            assert(selected.dom().contains(graph[first].depends_on[j]));
        }
    }
}

proof fn lemma_planning_never_finds_a_cycle(
    context: ContextModel,
    roles: Seq<LogicalRoleModel>,
    outputs: Seq<Seq<char>>,
    mentioned: Seq<u128>,
    state: PlanState,
    steps: nat,
)
    requires
        crate::role_graph::graph_error(crate::validation::logical_graph(roles), outputs) is None,
        unplanned(state.selected, roles, roles.len()) <= steps,
    ensures
        planned_from(context, roles, mentioned, state, steps) matches Err(error)
            ==> error is NoFeasibleImplementation,
    decreases steps,
{
    if !all_planned(state.selected, roles) {
        let now = ContextModel { objects: state.objects, ..context };
        lemma_progress(roles, outputs, state.selected);
        lemma_next_role(now, roles, state.selected, roles.len());
        let i = next_role(now, roles, state.selected, roles.len()).unwrap();
        lemma_unplanned_is_positive(state.selected, roles, roles.len(), i);
        let role = roles[i];
        let ready_ms = planned_ready(state.selected, role.depends_on, role.depends_on.len());
        if let Some(plan) = crate::shards::role_shards(
            now,
            role,
            planned_inputs(state.selected, role.depends_on, role.depends_on.len()),
            ready_ms,
            state.availability,
        ) {
            if let Some(tree) = brought_together(now, mentioned, role, ready_ms, plan) {
                let next = after_role(state, role, ready_ms, plan.choices, tree);
                lemma_unplanned_decreases(
                    state.selected,
                    roles,
                    roles.len(),
                    i,
                    next.selected[role.name],
                );
                lemma_planning_never_finds_a_cycle(
                    context,
                    roles,
                    outputs,
                    mentioned,
                    next,
                    (steps - 1) as nat,
                );
            }
        }
    }
}

/// Planning a job that is valid on the objects that are published fails only where a role has no
/// feasible implementation.
pub proof fn law_valid_jobs_fail_only_for_want_of_resources(context: ContextModel, job: LogicalJobModel)
    requires
        crate::validation::submission_error(job, context.objects) is None,
    ensures
        planned(context, job) matches Err(error) ==> error is NoFeasibleImplementation,
{
    let state = PlanState {
        objects: context.objects,
        availability: Map::<u128, Binary64>::empty(),
        selected: Map::<Seq<char>, SelectedModel>::empty(),
    };
    lemma_unplanned_bound(state.selected, job.roles, job.roles.len());
    lemma_planning_never_finds_a_cycle(
        context,
        job.roles,
        job.outputs,
        crate::chains::role_input_ids(job.roles, job.roles.len()),
        state,
        job.roles.len(),
    );
}

/// When some roles are done is a time that none of them finishes after.
proof fn lemma_planned_ready(selected: Map<Seq<char>, SelectedModel>, names: Seq<Seq<char>>, k: nat)
    requires
        k <= names.len(),
    ensures
        !planned_ready(selected, names, k).nan(),
        forall|j: int|
            0 <= j < k && selected.contains_key(#[trigger] names[j]) ==> !planned_ready(
                selected,
                names,
                k,
            ).less(selected[names[j]].finish_ms),
    decreases k,
{
    if k > 0 {
        lemma_planned_ready(selected, names, (k - 1) as nat);
        if selected.contains_key(names[k - 1]) {
            crate::binary64::lemma_maximum(
                planned_ready(selected, names, (k - 1) as nat),
                selected[names[k - 1]].finish_ms,
            );
        }
    }
}

/// Where and when the shards of a role are predicted to run, and then its reducers.
pub open spec fn placements(role: PlannedRoleModel) -> Seq<PlannedPlacement> {
    Seq::new(
        role.shards.len() + role.reductions.len(),
        |i: int|
            if i < role.shards.len() {
                role.shards[i].placement
            } else {
                role.reductions[i - role.shards.len()].placement
            },
    )
}

/// Nothing of a later role starts before everything of an earlier role is finished.
pub open spec fn runs_after(later: PlannedRoleModel, earlier: PlannedRoleModel) -> bool {
    forall|s: int, t: int|
        0 <= s < placements(later).len() && 0 <= t < placements(earlier).len() ==> !(
        #[trigger] placements(later)[s]).start_ms.less((#[trigger] placements(earlier)[t]).finish_ms)
}

/// A finished role: all of its shards and reducers are done by its finish time.
spec fn consistent(role: SelectedModel) -> bool {
    &&& !role.finish_ms.nan()
    &&& forall|t: int|
        0 <= t < placements(role.planned).len() ==> !role.finish_ms.less(
            (#[trigger] placements(role.planned)[t]).finish_ms,
        )
}

/// Every planned role is consistent, runs after its dependencies, and bears its own name.
spec fn orderly(selected: Map<Seq<char>, SelectedModel>, roles: Seq<LogicalRoleModel>) -> bool {
    forall|i: int|
        0 <= i < roles.len() && selected.contains_key((#[trigger] roles[i]).name) ==> {
            &&& consistent(selected[roles[i].name])
            &&& selected[roles[i].name].planned.name == roles[i].name
            &&& forall|j: int|
                0 <= j < roles[i].depends_on.len() ==> selected.contains_key(
                    #[trigger] roles[i].depends_on[j],
                ) && runs_after(
                    selected[roles[i].name].planned,
                    selected[roles[i].depends_on[j]].planned,
                )
        }
}

/// A settled role starts when it is ready, and is consistent.
proof fn lemma_settled(
    context: ContextModel,
    mentioned: Seq<u128>,
    role: LogicalRoleModel,
    ready_ms: Binary64,
    plan: ShardPlanModel,
    tree: TreeModel,
)
    requires
        !ready_ms.nan(),
        forall|k: int|
            0 <= k < plan.choices.len() ==> crate::shards::starts_from(
                #[trigger] plan.choices[k],
                ready_ms,
            ),
        brought_together(context, mentioned, role, ready_ms, plan) == Some(tree),
    ensures
        consistent(settled(role, ready_ms, plan.choices, tree)),
        forall|s: int|
            0 <= s < placements(settled(role, ready_ms, plan.choices, tree).planned).len()
                ==> ready_ms.at_most(
                (#[trigger] placements(settled(role, ready_ms, plan.choices, tree).planned)[s]).start_ms,
            ),
{
    let done = settled(role, ready_ms, plan.choices, tree);
    let all = placements(done.planned);
    let shards_ms = crate::shards::latest_finish(plan.choices, ready_ms, plan.choices.len());
    crate::shards::lemma_latest_finish(plan.choices, ready_ms, plan.choices.len());
    crate::reduction_plan::lemma_latest_reduction(tree.reductions, shards_ms, tree.reductions.len());
    if let Some(reduction) = role.reduction {
        let o = predicted_outputs(context.objects, mentioned, plan.choices, plan.choices.len());
        crate::reduction_plan::lemma_reduced_start(
            ContextModel { objects: Map::empty(), ..context },
            mentioned,
            reduction,
            ready_ms,
            0,
            TreeModel {
                objects: o.objects,
                availability: plan.availability,
                left: o.outputs,
                ready: o.ready,
                reductions: Seq::empty(),
            },
            o.outputs.len(),
        );
    }
    assert forall|s: int| 0 <= s < all.len() implies ready_ms.at_most((#[trigger] all[s]).start_ms)
        && !done.finish_ms.less(all[s].finish_ms) by {
        let count = plan.choices.len() as int;
        if s < count {
            assert(done.planned.shards[s] == planned_shard(plan.choices[s]));
            assert(crate::shards::starts_from(plan.choices[s], ready_ms));
            assert(!shards_ms.less(plan.choices[s].finish()));
        } else {
            assert(all[s] == tree.reductions[s - count].placement);
        }
    }
}

proof fn lemma_after_role_is_orderly(
    context: ContextModel,
    roles: Seq<LogicalRoleModel>,
    mentioned: Seq<u128>,
    state: PlanState,
    i: int,
    plan: ShardPlanModel,
    tree: TreeModel,
)
    requires
        orderly(state.selected, roles),
        0 <= i < roles.len(),
        plannable(state.selected, roles[i]),
        forall|a: int, b: int|
            0 <= a < b < roles.len() ==> (#[trigger] roles[a]).name != (#[trigger] roles[b]).name,
        forall|a: int, j: int|
            #![trigger roles[a].depends_on[j]]
            0 <= a < roles.len() && 0 <= j < roles[a].depends_on.len() ==> crate::role_graph::named(
                crate::validation::logical_graph(roles),
                roles[a].depends_on[j],
            ),
        crate::shards::role_shards(
            context,
            roles[i],
            planned_inputs(state.selected, roles[i].depends_on, roles[i].depends_on.len()),
            planned_ready(state.selected, roles[i].depends_on, roles[i].depends_on.len()),
            state.availability,
        ) == Some(plan),
        brought_together(
            context,
            mentioned,
            roles[i],
            planned_ready(state.selected, roles[i].depends_on, roles[i].depends_on.len()),
            plan,
        ) == Some(tree),
    ensures
        orderly(
            after_role(
                state,
                roles[i],
                planned_ready(state.selected, roles[i].depends_on, roles[i].depends_on.len()),
                plan.choices,
                tree,
            ).selected,
            roles,
        ),
{
    let role = roles[i];
    let ready_ms = planned_ready(state.selected, role.depends_on, role.depends_on.len());
    let next = after_role(state, role, ready_ms, plan.choices, tree).selected;
    lemma_planned_ready(state.selected, role.depends_on, role.depends_on.len());
    crate::shards::law_shards_wait_for_dependencies(
        context,
        role,
        planned_inputs(state.selected, role.depends_on, role.depends_on.len()),
        ready_ms,
        state.availability,
    );
    let found = crate::shards::role_shards(
        context,
        role,
        planned_inputs(state.selected, role.depends_on, role.depends_on.len()),
        ready_ms,
        state.availability,
    );
    assert(found->0.choices == plan.choices);
    lemma_settled(context, mentioned, role, ready_ms, plan, tree);
    let done = next[role.name];
    assert forall|a: int|
        0 <= a < roles.len() && next.contains_key((#[trigger] roles[a]).name) implies consistent(
        next[roles[a].name],
    ) && next[roles[a].name].planned.name == roles[a].name && forall|j: int|
        0 <= j < roles[a].depends_on.len() ==> next.contains_key(#[trigger] roles[a].depends_on[j])
            && runs_after(next[roles[a].name].planned, next[roles[a].depends_on[j]].planned) by {
        if roles[a].name == role.name {
            assert(a == i);
            assert forall|j: int| 0 <= j < role.depends_on.len() implies next.contains_key(
                #[trigger] role.depends_on[j],
            ) && runs_after(done.planned, next[role.depends_on[j]].planned) by {
                let dependency = role.depends_on[j];
                assert(state.selected.contains_key(dependency));
                let graph = crate::validation::logical_graph(roles);
                assert(crate::role_graph::named(graph, roles[i].depends_on[j]));
                let d = choose|d: int| 0 <= d < graph.len() && (#[trigger] graph[d]).name == dependency;
                assert(roles[d].name == dependency);
                let earlier = state.selected[dependency];
                assert(consistent(earlier));
                assert forall|s: int, t: int|
                    0 <= s < placements(done.planned).len() && 0 <= t < placements(
                        earlier.planned,
                    ).len() implies !(#[trigger] placements(done.planned)[s]).start_ms.less(
                    (#[trigger] placements(earlier.planned)[t]).finish_ms,
                ) by {
                    assert(ready_ms.at_most(placements(done.planned)[s].start_ms));
                    assert(!ready_ms.less(earlier.finish_ms));
                }
            }
        } else {
            assert(state.selected.contains_key(roles[a].name));
            assert forall|j: int| 0 <= j < roles[a].depends_on.len() implies next.contains_key(
                #[trigger] roles[a].depends_on[j],
            ) && runs_after(next[roles[a].name].planned, next[roles[a].depends_on[j]].planned) by {
                assert(state.selected.contains_key(roles[a].depends_on[j]));
            }
        }
    }
}

proof fn lemma_planning_is_orderly(
    context: ContextModel,
    roles: Seq<LogicalRoleModel>,
    outputs: Seq<Seq<char>>,
    mentioned: Seq<u128>,
    state: PlanState,
    steps: nat,
)
    requires
        crate::role_graph::well_formed(crate::validation::logical_graph(roles), outputs),
        orderly(state.selected, roles),
    ensures
        planned_from(context, roles, mentioned, state, steps) matches Ok(done) ==> orderly(
            done.selected,
            roles,
        ) && all_planned(done.selected, roles),
    decreases steps,
{
    if !all_planned(state.selected, roles) && steps > 0 {
        let now = ContextModel { objects: state.objects, ..context };
        lemma_next_role(now, roles, state.selected, roles.len());
        if let Some(i) = next_role(now, roles, state.selected, roles.len()) {
            let role = roles[i];
            let ready_ms = planned_ready(state.selected, role.depends_on, role.depends_on.len());
            if let Some(plan) = crate::shards::role_shards(
                now,
                role,
                planned_inputs(state.selected, role.depends_on, role.depends_on.len()),
                ready_ms,
                state.availability,
            ) {
                let graph = crate::validation::logical_graph(roles);
                assert forall|a: int, b: int| 0 <= a < b < roles.len() implies (#[trigger] roles[a]).name
                    != (#[trigger] roles[b]).name by {
                    assert(graph[a].name != graph[b].name);
                }
                assert forall|a: int, j: int|
                    #![trigger roles[a].depends_on[j]]
                    0 <= a < roles.len() && 0 <= j < roles[a].depends_on.len() implies crate::role_graph::named(
                    graph,
                    roles[a].depends_on[j],
                ) by {
                    assert(crate::role_graph::named(graph, graph[a].depends_on[j]));
                }
                if let Some(tree) = brought_together(now, mentioned, role, ready_ms, plan) {
                    lemma_after_role_is_orderly(now, roles, mentioned, state, i, plan, tree);
                    lemma_planning_is_orderly(
                        context,
                        roles,
                        outputs,
                        mentioned,
                        after_role(state, role, ready_ms, plan.choices, tree),
                        (steps - 1) as nat,
                    );
                }
            }
        }
    }
}

/// A job is not predicted to be done before any shard or reducer of a role among its outputs is.
pub(crate) proof fn lemma_makespan(context: ContextModel, job: LogicalJobModel, o: int, i: int, t: int)
    requires
        0 <= o < job.outputs.len(),
        0 <= i < job.roles.len(),
        job.roles[i].name == job.outputs[o],
    ensures
        planned(context, job) matches Ok(plan) ==> !plan.estimated_makespan_ms.nan() && (0 <= t < placements(
            plan.roles[i],
        ).len() ==> !plan.estimated_makespan_ms.less(placements(plan.roles[i])[t].finish_ms)),
{
    if planned(context, job) is Ok {
        let graph = crate::validation::logical_graph(job.roles);
        crate::role_graph::law_accepted_graphs_are_well_formed(graph, job.outputs);
        let first = PlanState {
            objects: context.objects,
            availability: Map::<u128, Binary64>::empty(),
            selected: Map::<Seq<char>, SelectedModel>::empty(),
        };
        let mentioned = crate::chains::role_input_ids(job.roles, job.roles.len());
        lemma_planning_is_orderly(context, job.roles, job.outputs, mentioned, first, job.roles.len());
        let done = planned_from(context, job.roles, mentioned, first, job.roles.len())->Ok_0;
        lemma_planned_ready(done.selected, job.outputs, job.outputs.len());
        assert(done.selected.contains_key(job.roles[i].name));
        assert(consistent(done.selected[job.roles[i].name]));
        let end = planned_ready(done.selected, job.outputs, job.outputs.len());
        let role = done.selected[job.outputs[o]];
        assert(!end.less(role.finish_ms));
        if 0 <= t < placements(role.planned).len() {
            assert(!role.finish_ms.less(placements(role.planned)[t].finish_ms));
        }
    }
}

/// A plan has every role of the job, under its name and in its place, and no role is predicted to
/// start before the roles that it depends on are predicted to finish.
pub proof fn law_plans_respect_dependencies(context: ContextModel, job: LogicalJobModel, i: int, d: int, j: int)
    requires
        0 <= i < job.roles.len(),
        0 <= d < job.roles.len(),
        0 <= j < job.roles[i].depends_on.len(),
        job.roles[i].depends_on[j] == job.roles[d].name,
    ensures
        planned(context, job) matches Ok(plan) ==> {
            &&& plan.roles.len() == job.roles.len()
            &&& plan.roles[i].name == job.roles[i].name
            &&& runs_after(plan.roles[i], plan.roles[d])
        },
{
    if planned(context, job) is Ok {
        let graph = crate::validation::logical_graph(job.roles);
        crate::role_graph::law_accepted_graphs_are_well_formed(graph, job.outputs);
        lemma_planning_is_orderly(
            context,
            job.roles,
            job.outputs,
            crate::chains::role_input_ids(job.roles, job.roles.len()),
            PlanState {
                objects: context.objects,
                availability: Map::<u128, Binary64>::empty(),
                selected: Map::<Seq<char>, SelectedModel>::empty(),
            },
            job.roles.len(),
        );
    }
}

}

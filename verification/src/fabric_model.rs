//! The state of the fabric, and how each request changes it.

use vstd::prelude::*;

use crate::binary64::Binary64;
use crate::chains::{FusionChoice, FusionModel};
use crate::ids::{ExecutionId, JobId, ObjectId, ResourceId, TaskId};
use crate::jobs::{CooperativeRoleModel, JobModel, LogicalJobModel, LogicalRoleModel, ReductionModel};
use crate::objects::ObjectModel;
use crate::resources::ResourceModel;
use crate::scheduler::{FusionAdvisor, PlacementDecision};
use crate::shards::{ContextModel, ShardChoice};
use crate::status::{
    FabricErrorModel, JobStatusModel, ReductionStatusModel, RoleFusionModel, RoleSelectionModel,
    RoleShardModel, RoleStatusModel, RoleViewModel, ShardStatusModel, TaskStatusModel,
};
use crate::tasks::{ExecutionLease, MembershipLease, TaskModel, TemplateModel};
use crate::topology::LinkProfile;

verus! {

pub struct RegisteredModel {
    pub descriptor: ResourceModel,
    pub expires_at_unix_ms: u64,
}

pub struct TaskRecordModel {
    pub spec: TaskModel,
    pub status: TaskStatusModel,
}

#[verifier::ext_equal]
pub struct JobRecordModel {
    pub definition: JobModel,
    pub roles: Map<Seq<char>, RoleStatusModel>,
    pub selections: Map<Seq<char>, RoleSelectionModel>,
    pub shards: Map<Seq<char>, Seq<RoleShardModel>>,
}

/// The role, or roles, that a task does the work of.
pub enum BindingModel {
    Single { job_id: JobId, role_name: Seq<char> },
    FusedChain { job_id: JobId, role_names: Seq<Seq<char>> },
    Shard { job_id: JobId, role_name: Seq<char>, index: usize },
    Reducer { job_id: JobId, role_name: Seq<char>, index: usize },
}

#[verifier::ext_equal]
pub struct FabricModel {
    pub resources: Map<u128, RegisteredModel>,
    /// The last epoch of every resource that has ever registered.
    pub epochs: Map<u128, u64>,
    pub objects: Map<u128, ObjectModel>,
    pub tasks: Map<u128, TaskRecordModel>,
    pub jobs: Map<u128, JobRecordModel>,
    pub task_roles: Map<u128, BindingModel>,
    pub links: Seq<LinkProfile>,
    pub risk_multiplier: Binary64,
    pub membership_ttl_ms: u64,
    pub execution_ttl_ms: u64,
}

/// What came of a request: the state after it, and its answer.
pub struct Outcome<T> {
    pub state: FabricModel,
    pub answer: Result<T, FabricErrorModel>,
}

/// A role that can be worked on now.
pub enum ReadyModel {
    Cooperative { name: Seq<char>, task: TemplateModel, inputs: Seq<ObjectId> },
    Logical { role: LogicalRoleModel, inputs: Seq<ObjectId>, chain: Seq<LogicalRoleModel> },
    Reduction { name: Seq<char>, reduction: ReductionModel, objects: Seq<ObjectId> },
}

pub open spec fn saturating_sum(a: u64, b: u64) -> u64 {
    if a + b > u64::MAX {
        u64::MAX
    } else {
        (a + b) as u64
    }
}

/// Locations other than a given one.
pub open spec fn elsewhere(resource_id: ResourceId) -> spec_fn(ResourceId) -> bool {
    |location: ResourceId| location != resource_id
}

/// An object that is no longer at a resource.
pub open spec fn withdrawn(object: ObjectModel, resource_id: ResourceId) -> ObjectModel {
    ObjectModel {
        locations: object.locations.filter(elsewhere(resource_id)),
        ..object
    }
}

/// Locations extended by those of the first `k` others that are not among them.
pub open spec fn merged_locations(
    locations: Seq<ResourceId>,
    others: Seq<ResourceId>,
    k: nat,
) -> Seq<ResourceId>
    decreases k,
{
    if k == 0 {
        locations
    } else {
        let before = merged_locations(locations, others, (k - 1) as nat);
        if before.contains(others[k - 1]) {
            before
        } else {
            before.push(others[k - 1])
        }
    }
}

/// The outputs of the first `k` dependencies in order, if all of them are complete.
pub open spec fn outputs_of(
    statuses: Map<Seq<char>, RoleStatusModel>,
    dependencies: Seq<Seq<char>>,
    k: nat,
) -> Option<Seq<ObjectId>>
    decreases k,
{
    if k == 0 {
        Some(Seq::empty())
    } else {
        match outputs_of(statuses, dependencies, (k - 1) as nat) {
            None => None,
            Some(before) => if statuses.contains_key(dependencies[k - 1]) {
                match statuses[dependencies[k - 1]] {
                    RoleStatusModel::Completed(outputs) => Some(before + outputs),
                    _ => None,
                }
            } else {
                None
            },
        }
    }
}

/// The first role from `i` on that depends on a given one.
pub open spec fn consumer_from(roles: Seq<LogicalRoleModel>, name: Seq<char>, i: int) -> Option<int>
    decreases roles.len() - i,
{
    if i < 0 || i >= roles.len() {
        None
    } else if roles[i].depends_on.contains(name) {
        Some(i)
    } else {
        consumer_from(roles, name, i + 1)
    }
}

/// The role that continues a chain: the only consumer of its last role, which depends on nothing
/// else, is not sharded and has not started. The last role may not be an output of the job.
pub open spec fn next_in_chain(
    job: LogicalJobModel,
    statuses: Map<Seq<char>, RoleStatusModel>,
    last: LogicalRoleModel,
) -> Option<int> {
    if job.outputs.contains(last.name) {
        None
    } else {
        match consumer_from(job.roles, last.name, 0) {
            None => None,
            Some(i) => {
                let consumer = job.roles[i];
                if consumer_from(job.roles, last.name, i + 1) is None && consumer.depends_on
                    == seq![last.name] && consumer.shards.single() && statuses.contains_key(
                    consumer.name,
                ) && statuses[consumer.name] is Waiting {
                    Some(i)
                } else {
                    None
                }
            },
        }
    }
}

/// The longest safe chain that continues `chain`, by at most `limit` roles.
pub open spec fn chain_from(
    job: LogicalJobModel,
    statuses: Map<Seq<char>, RoleStatusModel>,
    chain: Seq<LogicalRoleModel>,
    limit: nat,
) -> Seq<LogicalRoleModel>
    decreases limit,
{
    if limit == 0 {
        chain
    } else {
        match next_in_chain(job, statuses, chain.last()) {
            None => chain,
            Some(i) => chain_from(job, statuses, chain.push(job.roles[i]), (limit - 1) as nat),
        }
    }
}

/// The roles of a cooperative job from `i` on that can be worked on.
pub open spec fn ready_cooperative(
    roles: Seq<CooperativeRoleModel>,
    statuses: Map<Seq<char>, RoleStatusModel>,
    i: int,
) -> Seq<ReadyModel>
    decreases roles.len() - i,
{
    if i < 0 || i >= roles.len() {
        Seq::empty()
    } else {
        let role = roles[i];
        let rest = ready_cooperative(roles, statuses, i + 1);
        if statuses.contains_key(role.name) && statuses[role.name] is Waiting {
            match outputs_of(statuses, role.depends_on, role.depends_on.len()) {
                Some(inputs) => seq![
                    ReadyModel::Cooperative { name: role.name, task: role.task, inputs },
                ] + rest,
                None => rest,
            }
        } else {
            rest
        }
    }
}

/// The roles of a logical job from `i` on that can be worked on.
pub open spec fn ready_logical(
    job: LogicalJobModel,
    statuses: Map<Seq<char>, RoleStatusModel>,
    i: int,
) -> Seq<ReadyModel>
    decreases job.roles.len() - i,
{
    if i < 0 || i >= job.roles.len() {
        Seq::empty()
    } else {
        let role = job.roles[i];
        let rest = ready_logical(job, statuses, i + 1);
        if statuses.contains_key(role.name) && (statuses[role.name] is Waiting
            || statuses[role.name] is Ready) {
            match outputs_of(statuses, role.depends_on, role.depends_on.len()) {
                Some(inputs) => seq![
                    ReadyModel::Logical {
                        role,
                        inputs,
                        chain: chain_from(job, statuses, seq![role], job.roles.len()),
                    },
                ] + rest,
                None => rest,
            }
        } else if statuses.contains_key(role.name) && role.reduction is Some {
            match statuses[role.name] {
                RoleStatusModel::Reducible(objects) => seq![
                    ReadyModel::Reduction {
                        name: role.name,
                        reduction: role.reduction.unwrap(),
                        objects,
                    },
                ] + rest,
                _ => rest,
            }
        } else {
            rest
        }
    }
}

/// The roles of a job that can be worked on.
pub open spec fn ready_roles(job: JobRecordModel) -> Seq<ReadyModel> {
    match job.definition {
        JobModel::Cooperative(spec) => ready_cooperative(spec.roles, job.roles, 0),
        JobModel::Logical(spec) => ready_logical(spec, job.roles, 0),
    }
}

/// The outputs of shards, in order, if all of the first `k` are there.
pub open spec fn gathered(shards: Seq<ShardStatusModel>, k: nat) -> Option<Seq<ObjectId>>
    decreases k,
{
    if k == 0 {
        Some(Seq::empty())
    } else {
        match (gathered(shards, (k - 1) as nat), shards[k - 1].outputs) {
            (Some(before), Some(outputs)) => Some(before + outputs),
            _ => None,
        }
    }
}

/// The status of a role whose contributions, in order, are all there: as long as there are several, a
/// role that reduces them goes on.
pub open spec fn contributed(reduces: bool, objects: Seq<ObjectId>) -> RoleStatusModel {
    if reduces && objects.len() > 1 {
        RoleStatusModel::Reducible(objects)
    } else {
        RoleStatusModel::Completed(objects)
    }
}

/// The status of a sharded role once the shard of an index has put something out.
pub open spec fn after_shard(
    status: RoleStatusModel,
    index: usize,
    outputs: Seq<ObjectId>,
    reduces: bool,
) -> RoleStatusModel {
    match status {
        RoleStatusModel::Sharded(shards) => if index < shards.len() {
            let next = shards.update(
                index as int,
                ShardStatusModel { task_id: shards[index as int].task_id, outputs: Some(outputs) },
            );
            match gathered(next, next.len()) {
                Some(all) => contributed(reduces, all),
                None => RoleStatusModel::Sharded(next),
            }
        } else {
            status
        },
        _ => status,
    }
}

/// What the groups of a level put out, in order, if all of the first `k` have.
pub open spec fn level_outputs(groups: Seq<ReductionStatusModel>, k: nat) -> Option<Seq<ObjectId>>
    decreases k,
{
    if k == 0 {
        Some(Seq::empty())
    } else {
        match (level_outputs(groups, (k - 1) as nat), groups[k - 1].outputs) {
            (Some(before), Some(outputs)) => Some(before + outputs),
            _ => None,
        }
    }
}

/// The status of a role that reduces once the reducer of a group has put something out.
pub open spec fn after_reducer(status: RoleStatusModel, index: usize, outputs: Seq<ObjectId>) -> RoleStatusModel {
    match status {
        RoleStatusModel::Reducing(groups) => if index < groups.len() {
            let next = groups.update(
                index as int,
                ReductionStatusModel { outputs: Some(outputs), ..groups[index as int] },
            );
            match level_outputs(next, next.len()) {
                Some(all) => contributed(true, all),
                None => RoleStatusModel::Reducing(next),
            }
        } else {
            status
        },
        _ => status,
    }
}

/// One of the roles from `i` on has the name, and reduces what its shards put out.
pub open spec fn reduces_from(roles: Seq<LogicalRoleModel>, name: Seq<char>, i: int) -> bool
    decreases roles.len() - i,
{
    if i < 0 || i >= roles.len() {
        false
    } else if roles[i].name == name {
        roles[i].reduction is Some
    } else {
        reduces_from(roles, name, i + 1)
    }
}

/// A role of a job reduces what its shards put out.
pub open spec fn reduces(definition: JobModel, name: Seq<char>) -> bool {
    match definition {
        JobModel::Cooperative(_) => false,
        JobModel::Logical(spec) => reduces_from(spec.roles, name, 0),
    }
}

/// The groups of a level at its beginning: an object that stands alone is carried on as it is.
pub open spec fn level_statuses(groups: Seq<Seq<ObjectId>>, ids: Seq<TaskId>) -> Seq<ReductionStatusModel> {
    Seq::new(
        groups.len(),
        |i: int|
            if groups[i].len() > 1 {
                ReductionStatusModel { inputs: groups[i], task_id: Some(ids[i]), outputs: None }
            } else {
                ReductionStatusModel { inputs: groups[i], task_id: None, outputs: Some(groups[i]) }
            },
    )
}

/// The names of the roles of a job, with what they depend on.
pub open spec fn role_graph_of(definition: JobModel) -> Seq<crate::role_graph::NodeModel> {
    match definition {
        JobModel::Cooperative(spec) => crate::validation::cooperative_graph(spec.roles),
        JobModel::Logical(spec) => crate::validation::logical_graph(spec.roles),
    }
}

pub open spec fn outputs_declared(definition: JobModel) -> Seq<Seq<char>> {
    match definition {
        JobModel::Cooperative(spec) => spec.outputs,
        JobModel::Logical(spec) => spec.outputs,
    }
}

pub open spec fn id_of(definition: JobModel) -> JobId {
    match definition {
        JobModel::Cooperative(spec) => spec.id,
        JobModel::Logical(spec) => spec.id,
    }
}

/// What is wrong with a job, given the objects that are published.
pub open spec fn job_error(definition: JobModel, objects: Map<u128, ObjectModel>) -> Option<
    FabricErrorModel,
> {
    match definition {
        JobModel::Cooperative(spec) => match crate::validation::cooperative_error(spec) {
            Some(message) => Some(FabricErrorModel::InvalidCooperativeJob(message)),
            None => None,
        },
        JobModel::Logical(spec) => match crate::validation::submission_error(
            spec,
            objects,
        ) {
            Some(message) => Some(FabricErrorModel::InvalidLogicalJob(message)),
            None => None,
        },
    }
}

/// Every role waits.
pub open spec fn all_waiting(graph: Seq<crate::role_graph::NodeModel>) -> Map<Seq<char>, RoleStatusModel> {
    Map::new(
        |name: Seq<char>| crate::role_graph::named(graph, name),
        |name: Seq<char>| RoleStatusModel::Waiting,
    )
}

/// A job that was just accepted.
pub open spec fn fresh_job(definition: JobModel) -> JobRecordModel {
    JobRecordModel {
        definition,
        roles: all_waiting(role_graph_of(definition)),
        selections: Map::empty(),
        shards: Map::empty(),
    }
}

/// The outputs of the first `k` declared output roles, in order.
pub open spec fn result_of(
    statuses: Map<Seq<char>, RoleStatusModel>,
    outputs: Seq<Seq<char>>,
    k: nat,
) -> Seq<ObjectId>
    decreases k,
{
    if k == 0 {
        Seq::empty()
    } else {
        let before = result_of(statuses, outputs, (k - 1) as nat);
        if statuses.contains_key(outputs[k - 1]) {
            match statuses[outputs[k - 1]] {
                RoleStatusModel::Completed(objects) => before + objects,
                _ => before,
            }
        } else {
            before
        }
    }
}

impl JobRecordModel {
    /// Uncertain as soon as one role is, complete once all of them are.
    pub open spec fn status(self) -> JobStatusModel {
        if exists|name: Seq<char>| #[trigger] self.roles.contains_key(name) && self.roles[name] is Uncertain {
            JobStatusModel::Uncertain
        } else if exists|name: Seq<char>|
            #[trigger] self.roles.contains_key(name) && !(self.roles[name] is Completed) {
            JobStatusModel::Running
        } else {
            let outputs = outputs_declared(self.definition);
            JobStatusModel::Completed(result_of(self.roles, outputs, outputs.len()))
        }
    }

    /// How a role is shown.
    pub open spec fn role_view(self, role: crate::role_graph::NodeModel) -> RoleViewModel {
        let chosen = self.selections.contains_key(role.name);
        let selection = self.selections[role.name];
        RoleViewModel {
            name: role.name,
            depends_on: role.depends_on,
            status: self.roles[role.name],
            implementation: if chosen {
                Some(selection.implementation)
            } else {
                None
            },
            planned_resource: if chosen {
                Some(selection.planned_resource)
            } else {
                None
            },
            estimated_total_ms: if chosen {
                Some(selection.estimated_total_ms)
            } else {
                None
            },
            fusion: if chosen {
                selection.fusion
            } else {
                None
            },
            shards: if self.shards.contains_key(role.name) {
                self.shards[role.name]
            } else {
                Seq::empty()
            },
        }
    }

    /// The job with a role in a given state.
    pub open spec fn with_role(self, name: Seq<char>, status: RoleStatusModel) -> JobRecordModel {
        JobRecordModel { roles: self.roles.insert(name, status), ..self }
    }

    /// The job with those of the first `k` roles that it has in a given state.
    pub open spec fn with_roles(self, names: Seq<Seq<char>>, status: RoleStatusModel, k: nat) -> JobRecordModel
        decreases k,
    {
        if k == 0 {
            self
        } else {
            let before = self.with_roles(names, status, (k - 1) as nat);
            if before.roles.contains_key(names[k - 1]) {
                before.with_role(names[k - 1], status)
            } else {
                before
            }
        }
    }

    /// The job with the first `k` stages of a fused task recorded.
    pub open spec fn with_stages(self, names: Seq<Seq<char>>, choice: FusionChoice, k: nat) -> JobRecordModel
        decreases k,
    {
        if k == 0 {
            self
        } else {
            let before = self.with_stages(names, choice, (k - 1) as nat);
            JobRecordModel {
                roles: before.roles.insert(names[k - 1], RoleStatusModel::Submitted(choice.task.id)),
                selections: before.selections.insert(
                    names[k - 1],
                    RoleSelectionModel {
                        implementation: choice.implementations[k - 1],
                        planned_resource: choice.resource_id,
                        estimated_total_ms: choice.cost.total_ms,
                        fusion: Some(
                            RoleFusionModel {
                                chain_roles: names,
                                stage_index: (k - 1) as usize,
                                estimated_avoided_transfer_ms: choice.estimated_avoided_transfer_ms,
                                estimated_vs_separate_ms: choice.estimated_vs_separate_ms,
                            },
                        ),
                    },
                ),
                ..before
            }
        }
    }
}

/// The first output from `i` on that contradicts a published object.
pub open spec fn conflict_from(
    objects: Map<u128, ObjectModel>,
    outputs: Seq<ObjectModel>,
    i: int,
) -> Option<ObjectId>
    decreases outputs.len() - i,
{
    if i < 0 || i >= outputs.len() {
        None
    } else if objects.contains_key(outputs[i].id.0) && !objects[outputs[i].id.0].same_identity(
        outputs[i],
    ) {
        Some(outputs[i].id)
    } else {
        conflict_from(objects, outputs, i + 1)
    }
}

/// The identifiers of some objects.
pub open spec fn ids_of(objects: Seq<ObjectModel>) -> Seq<ObjectId> {
    Seq::new(objects.len(), |i: int| objects[i].id)
}

/// The names of the first `k` roles of a chain.
pub open spec fn names_of(chain: Seq<LogicalRoleModel>, k: nat) -> Seq<Seq<char>> {
    Seq::new(k, |i: int| chain[i].name)
}

impl FabricModel {
    pub open spec fn empty(membership_ttl_ms: u64, execution_ttl_ms: u64) -> FabricModel {
        FabricModel {
            resources: Map::empty(),
            epochs: Map::empty(),
            objects: Map::empty(),
            tasks: Map::empty(),
            jobs: Map::empty(),
            task_roles: Map::empty(),
            links: Seq::empty(),
            risk_multiplier: Binary64::nearest_to(1),
            membership_ttl_ms,
            execution_ttl_ms,
        }
    }

    pub open spec fn without_link(self, a: ResourceId, b: ResourceId) -> FabricModel {
        FabricModel { links: self.links.filter(|link: LinkProfile| !link.joins(a, b)), ..self }
    }

    pub open spec fn with_link(self, link: LinkProfile) -> FabricModel {
        let cleared = self.without_link(link.from, link.to);
        FabricModel { links: cleared.links.push(link), ..self }
    }

    /// The epoch that a resource gets when it registers: one more than the last that it had, even if
    /// it has left since; or its own, but at least one, if it has never registered before.
    pub open spec fn next_epoch(self, descriptor: ResourceModel) -> int {
        if self.epochs.contains_key(descriptor.id.0) {
            self.epochs[descriptor.id.0] + 1
        } else if descriptor.epoch > 1 {
            descriptor.epoch as int
        } else {
            1
        }
    }

    pub open spec fn registered(self, descriptor: ResourceModel, now: u64) -> FabricModel {
        FabricModel {
            resources: self.resources.insert(
                descriptor.id.0,
                RegisteredModel {
                    descriptor: ResourceModel { epoch: self.next_epoch(descriptor) as u64, ..descriptor },
                    expires_at_unix_ms: saturating_sum(now, self.membership_ttl_ms),
                },
            ),
            epochs: self.epochs.insert(descriptor.id.0, self.next_epoch(descriptor) as u64),
            ..self
        }
    }

    pub open spec fn membership(self, descriptor: ResourceModel, now: u64) -> MembershipLease {
        MembershipLease {
            resource_id: descriptor.id,
            epoch: self.next_epoch(descriptor) as u64,
            expires_at_unix_ms: saturating_sum(now, self.membership_ttl_ms),
        }
    }

    /// A resource whose membership has not expired.
    pub open spec fn active(self, resource: u128, now: u64) -> bool {
        self.resources.contains_key(resource) && self.resources[resource].expires_at_unix_ms > now
    }

    pub open spec fn heartbeat(self, resource_id: ResourceId, epoch: u64, now: u64) -> Outcome<
        MembershipLease,
    > {
        if !self.resources.contains_key(resource_id.0) {
            Outcome { state: self, answer: Err(FabricErrorModel::ResourceNotActive(resource_id)) }
        } else if self.resources[resource_id.0].descriptor.epoch != epoch {
            Outcome { state: self, answer: Err(FabricErrorModel::StaleResourceEpoch(resource_id)) }
        } else {
            let expires_at_unix_ms = saturating_sum(now, self.membership_ttl_ms);
            Outcome {
                state: FabricModel {
                    resources: self.resources.insert(
                        resource_id.0,
                        RegisteredModel { expires_at_unix_ms, ..self.resources[resource_id.0] },
                    ),
                    ..self
                },
                answer: Ok(MembershipLease { resource_id, epoch, expires_at_unix_ms }),
            }
        }
    }

    /// The fabric without a resource: no object is there, and no link leads there. Its last epoch is
    /// remembered.
    pub open spec fn without_resource(self, resource_id: ResourceId) -> FabricModel {
        FabricModel {
            resources: self.resources.remove(resource_id.0),
            objects: Map::new(
                |k: u128| self.objects.contains_key(k),
                |k: u128| withdrawn(self.objects[k], resource_id),
            ),
            links: self.links.filter(
                |link: LinkProfile| link.from != resource_id && link.to != resource_id,
            ),
            ..self
        }
    }

    /// The resources whose membership has expired, by identifier.
    pub open spec fn expired(self, now: u64) -> Seq<u128> {
        crate::collections::sorted(self.resources.dom()).filter(
            |k: u128| self.resources[k].expires_at_unix_ms <= now,
        )
    }

    /// The fabric without the first `k` of some resources.
    pub open spec fn without_resources(self, ids: Seq<u128>, k: nat) -> FabricModel
        decreases k,
    {
        if k == 0 {
            self
        } else {
            self.without_resources(ids, (k - 1) as nat).without_resource(ResourceId(ids[k - 1]))
        }
    }

    pub open spec fn published(self, object: ObjectModel) -> Outcome<()> {
        let key = object.id.0;
        if !self.objects.contains_key(key) {
            Outcome {
                state: FabricModel { objects: self.objects.insert(key, object), ..self },
                answer: Ok(()),
            }
        } else if !self.objects[key].same_identity(object) {
            Outcome { state: self, answer: Err(FabricErrorModel::ObjectConflict(object.id)) }
        } else {
            let locations = merged_locations(
                self.objects[key].locations,
                object.locations,
                object.locations.len(),
            );
            Outcome {
                state: FabricModel {
                    objects: self.objects.insert(key, ObjectModel { locations, ..self.objects[key] }),
                    ..self
                },
                answer: Ok(()),
            }
        }
    }

    /// Publishes the objects from `i` on, up to the first conflict.
    pub open spec fn published_from(self, objects: Seq<ObjectModel>, i: int) -> Outcome<()>
        decreases objects.len() - i,
    {
        if i < 0 || i >= objects.len() {
            Outcome { state: self, answer: Ok(()) }
        } else {
            let one = self.published(objects[i]);
            if one.answer is Err {
                one
            } else {
                one.state.published_from(objects, i + 1)
            }
        }
    }

    pub open spec fn located(self, object_id: ObjectId, resource_id: ResourceId) -> Outcome<()> {
        if !self.objects.contains_key(object_id.0) {
            Outcome { state: self, answer: Err(FabricErrorModel::UnknownObject(object_id)) }
        } else {
            let object = self.objects[object_id.0];
            Outcome {
                state: FabricModel {
                    objects: self.objects.insert(
                        object_id.0,
                        ObjectModel {
                            locations: merged_locations(object.locations, seq![resource_id], 1),
                            ..object
                        },
                    ),
                    ..self
                },
                answer: Ok(()),
            }
        }
    }

    pub open spec fn submitted(self, task: TaskModel) -> Outcome<TaskId> {
        match crate::validation::task_error(task) {
            Some(message) => Outcome { state: self, answer: Err(FabricErrorModel::InvalidTask(message)) },
            None => if self.tasks.contains_key(task.id.0) {
                Outcome { state: self, answer: Err(FabricErrorModel::DuplicateTask(task.id)) }
            } else {
                Outcome {
                    state: FabricModel {
                        tasks: self.tasks.insert(
                            task.id.0,
                            TaskRecordModel { spec: task, status: TaskStatusModel::Pending },
                        ),
                        ..self
                    },
                    answer: Ok(task.id),
                }
            },
        }
    }

    /// The tasks that wait for a resource, by identifier.
    pub open spec fn pending_keys(self) -> Seq<u128> {
        crate::collections::sorted(self.tasks.dom()).filter(|k: u128| self.tasks[k].status is Pending)
    }

    /// A resource on which a task runs under a lease that has not expired.
    pub open spec fn busy(self, resource_id: ResourceId, now: u64) -> bool {
        exists|k: u128| #[trigger] self.tasks.contains_key(k) && self.occupies(k, resource_id, now)
    }

    pub open spec fn occupies(self, task: u128, resource_id: ResourceId, now: u64) -> bool {
        self.tasks[task].status matches TaskStatusModel::Running(lease) && lease.expires_at_unix_ms > now
            && lease.resource_id == resource_id
    }

    /// The active resources, by identifier.
    pub open spec fn active_keys(self, now: u64) -> Seq<u128> {
        crate::collections::sorted(self.resources.dom()).filter(|k: u128| self.active(k, now))
    }

    /// The active resources that are not busy, by identifier.
    pub open spec fn idle_keys(self, now: u64) -> Seq<u128> {
        crate::collections::sorted(self.resources.dom()).filter(
            |k: u128| self.active(k, now) && !self.busy(self.resources[k].descriptor.id, now),
        )
    }

    pub open spec fn descriptors(self, keys: Seq<u128>) -> Seq<ResourceModel> {
        Seq::new(keys.len(), |i: int| self.resources[keys[i]].descriptor)
    }

    /// What placement decisions look at.
    pub open spec fn context(self, now: u64) -> ContextModel {
        ContextModel {
            risk_multiplier: self.risk_multiplier,
            resources: self.descriptors(self.idle_keys(now)),
            objects: self.objects,
            links: self.links,
        }
    }

    pub open spec fn scheduled(self, task_id: TaskId, now: u64) -> Result<
        PlacementDecision,
        FabricErrorModel,
    > {
        if !self.tasks.contains_key(task_id.0) {
            Err(FabricErrorModel::UnknownTask(task_id))
        } else if !(self.tasks[task_id.0].status is Pending) {
            Err(FabricErrorModel::TaskNotPending(task_id))
        } else {
            match crate::planner::considered(self.context(now), self.tasks[task_id.0].spec) {
                Ok(decision) => Ok(decision),
                Err(error) => Err(FabricErrorModel::Scheduling(error)),
            }
        }
    }

    pub open spec fn with_status(self, task: u128, status: TaskStatusModel) -> FabricModel {
        FabricModel {
            tasks: self.tasks.insert(
                task,
                TaskRecordModel { status, ..self.tasks[task] },
            ),
            ..self
        }
    }

    /// A task starts on a resource, under a lease of its own.
    pub open spec fn begun(
        self,
        task_id: TaskId,
        resource_id: ResourceId,
        now: u64,
        execution_id: ExecutionId,
    ) -> Outcome<ExecutionLease> {
        if !self.active(resource_id.0, now) {
            Outcome { state: self, answer: Err(FabricErrorModel::ResourceNotActive(resource_id)) }
        } else if !self.tasks.contains_key(task_id.0) {
            Outcome { state: self, answer: Err(FabricErrorModel::UnknownTask(task_id)) }
        } else if !(self.tasks[task_id.0].status is Pending) {
            Outcome { state: self, answer: Err(FabricErrorModel::TaskNotPending(task_id)) }
        } else {
            let lease = ExecutionLease {
                task_id,
                execution_id,
                resource_id,
                resource_epoch: self.resources[resource_id.0].descriptor.epoch,
                expires_at_unix_ms: saturating_sum(now, self.execution_ttl_ms),
            };
            Outcome {
                state: self.with_status(task_id.0, TaskStatusModel::Running(lease)),
                answer: Ok(lease),
            }
        }
    }

    /// Why a lease does not own its task now. The lease that the fabric holds decides, not the one
    /// that is shown.
    pub open spec fn lease_error(self, lease: ExecutionLease, now: u64) -> Option<FabricErrorModel> {
        if !self.active(lease.resource_id.0, now) {
            Some(FabricErrorModel::ResourceNotActive(lease.resource_id))
        } else if self.resources[lease.resource_id.0].descriptor.epoch != lease.resource_epoch {
            Some(FabricErrorModel::StaleResourceEpoch(lease.resource_id))
        } else if !self.tasks.contains_key(lease.task_id.0) {
            Some(FabricErrorModel::UnknownTask(lease.task_id))
        } else {
            match self.tasks[lease.task_id.0].status {
                TaskStatusModel::Running(current) if current.execution_id == lease.execution_id => if current.expires_at_unix_ms
                    <= now {
                    Some(FabricErrorModel::ExecutionExpired)
                } else if current.resource_id != lease.resource_id || current.resource_epoch
                    != lease.resource_epoch {
                    Some(FabricErrorModel::StaleExecution)
                } else {
                    None
                },
                _ => Some(FabricErrorModel::StaleExecution),
            }
        }
    }

    pub open spec fn renewed(self, lease: ExecutionLease, now: u64) -> Outcome<ExecutionLease> {
        match self.lease_error(lease, now) {
            Some(error) => Outcome { state: self, answer: Err(error) },
            None => {
                let next = ExecutionLease {
                    expires_at_unix_ms: saturating_sum(now, self.execution_ttl_ms),
                    ..self.tasks[lease.task_id.0].status->Running_0
                };
                Outcome {
                    state: self.with_status(lease.task_id.0, TaskStatusModel::Running(next)),
                    answer: Ok(next),
                }
            },
        }
    }

    pub open spec fn with_job(self, job_id: JobId, job: JobRecordModel) -> FabricModel {
        FabricModel { jobs: self.jobs.insert(job_id.0, job), ..self }
    }

    pub open spec fn bound(self, task_id: TaskId, binding: BindingModel) -> FabricModel {
        FabricModel { task_roles: self.task_roles.insert(task_id.0, binding), ..self }
    }

    /// Submits the task of a role, and records that it does.
    pub open spec fn attached(
        self,
        job_id: JobId,
        name: Seq<char>,
        task: TaskModel,
        selection: Option<RoleSelectionModel>,
    ) -> Outcome<()> {
        let one = self.submitted(task);
        match one.answer {
            Err(error) => Outcome { state: self, answer: Err(error) },
            Ok(_) => {
                let job = self.jobs[job_id.0];
                Outcome {
                    state: one.state.bound(
                        task.id,
                        BindingModel::Single { job_id, role_name: name },
                    ).with_job(
                        job_id,
                        JobRecordModel {
                            selections: match selection {
                                Some(chosen) => job.selections.insert(name, chosen),
                                None => job.selections,
                            },
                            ..job.with_role(name, RoleStatusModel::Submitted(task.id))
                        },
                    ),
                    answer: Ok(()),
                }
            },
        }
    }

    /// Submits the fused task of the first roles of a chain, and records that it does.
    pub open spec fn attached_fused(self, job_id: JobId, names: Seq<Seq<char>>, choice: FusionChoice) -> Outcome<
        (),
    > {
        let one = self.submitted(choice.task);
        match one.answer {
            Err(error) => Outcome { state: self, answer: Err(error) },
            Ok(_) => Outcome {
                state: one.state.bound(
                    choice.task.id,
                    BindingModel::FusedChain { job_id, role_names: names },
                ).with_job(job_id, self.jobs[job_id.0].with_stages(names, choice, names.len())),
                answer: Ok(()),
            },
        }
    }

    /// Submits the tasks of the shards of a role from `k` on.
    pub open spec fn shards_submitted(
        self,
        job_id: JobId,
        name: Seq<char>,
        choices: Seq<ShardChoice>,
        k: int,
    ) -> Outcome<()>
        decreases choices.len() - k,
    {
        if k < 0 || k >= choices.len() {
            Outcome { state: self, answer: Ok(()) }
        } else {
            let one = self.submitted(choices[k].task);
            match one.answer {
                Err(error) => Outcome { state: self, answer: Err(error) },
                Ok(_) => one.state.bound(
                    choices[k].task.id,
                    BindingModel::Shard { job_id, role_name: name, index: k as usize },
                ).shards_submitted(job_id, name, choices, k + 1),
            }
        }
    }

    /// Submits the tasks of a sharded role, and records that it does.
    pub open spec fn attached_shards(self, job_id: JobId, name: Seq<char>, choices: Seq<ShardChoice>) -> Outcome<
        (),
    > {
        let all = self.shards_submitted(job_id, name, choices, 0);
        if all.answer is Err {
            all
        } else {
            let job = self.jobs[job_id.0];
            Outcome {
                state: all.state.with_job(
                    job_id,
                    JobRecordModel {
                        shards: job.shards.insert(name, shard_views(choices)),
                        ..job.with_role(name, RoleStatusModel::Sharded(shard_statuses(choices)))
                    },
                ),
                answer: Ok(()),
            }
        }
    }

    /// Submits the reducers of the groups from `k` on.
    pub open spec fn reducers_submitted(
        self,
        job_id: JobId,
        name: Seq<char>,
        task: TemplateModel,
        groups: Seq<Seq<ObjectId>>,
        ids: Seq<TaskId>,
        k: int,
    ) -> Outcome<()>
        decreases groups.len() - k,
    {
        if k < 0 || k >= groups.len() {
            Outcome { state: self, answer: Ok(()) }
        } else if groups[k].len() <= 1 {
            self.reducers_submitted(job_id, name, task, groups, ids, k + 1)
        } else {
            let one = self.submitted(task.instantiated(groups[k], ids[k]));
            match one.answer {
                Err(error) => Outcome { state: self, answer: Err(error) },
                Ok(_) => one.state.bound(
                    ids[k],
                    BindingModel::Reducer { job_id, role_name: name, index: k as usize },
                ).reducers_submitted(job_id, name, task, groups, ids, k + 1),
            }
        }
    }

    /// Submits the reducers of the next level of a reduction, and records that it does.
    pub open spec fn attached_level(
        self,
        job_id: JobId,
        name: Seq<char>,
        task: TemplateModel,
        groups: Seq<Seq<ObjectId>>,
        ids: Seq<TaskId>,
    ) -> Outcome<()> {
        let all = self.reducers_submitted(job_id, name, task, groups, ids, 0);
        if all.answer is Err {
            all
        } else {
            Outcome {
                state: all.state.with_job(
                    job_id,
                    self.jobs[job_id.0].with_role(
                        name,
                        RoleStatusModel::Reducing(level_statuses(groups, ids)),
                    ),
                ),
                answer: Ok(()),
            }
        }
    }

    /// The groups in which objects are reduced next.
    pub open spec fn next_groups(self, reduction: ReductionModel, objects: Seq<ObjectId>) -> Seq<Seq<ObjectId>> {
        crate::reduction::level_groups(self.links, reduction, self.objects, objects)
    }

    /// Turns a ready role into tasks, whose identities are given; a role that nothing can run now
    /// stays ready.
    #[verifier::opaque]
    pub open spec fn materialized_role(self, job_id: JobId, ready: ReadyModel, now: u64, ids: Seq<TaskId>) -> Outcome<
        (),
    > {
        match ready {
            ReadyModel::Cooperative { name, task, inputs } => self.attached(
                job_id,
                name,
                task.instantiated(inputs, ids[0]),
                None,
            ),
            ReadyModel::Logical { role, inputs, chain } => {
                let context = self.context(now);
                let postponed = Outcome {
                    state: self.with_job(
                        job_id,
                        self.jobs[job_id.0].with_role(role.name, RoleStatusModel::Ready),
                    ),
                    answer: Ok(()),
                };
                if !role.shards.single() {
                    match crate::shards::role_shards(
                        context,
                        role,
                        inputs,
                        Binary64 { bits: 0 },
                        Map::empty(),
                    ) {
                        None => postponed,
                        Some(plan) => self.attached_shards(
                            job_id,
                            role.name,
                            named_choices(plan.choices, ids),
                        ),
                    }
                } else {
                    let fusion = FusionModel {
                        context,
                        advisor: FusionAdvisor { minimum_saved_transfer_ms: Binary64::nearest_to(20) },
                    };
                    match crate::chains::best_fusion(fusion, chain, inputs) {
                        Some(choice) => self.attached_fused(
                            job_id,
                            names_of(chain, choice.implementations.len()),
                            choice.named(ids[0]),
                        ),
                        None => match crate::planner::best_implementation(
                            context,
                            role,
                            inputs,
                            role.implementations.len(),
                        ) {
                            None => postponed,
                            Some(choice) => self.attached(
                                job_id,
                                role.name,
                                choice.named(ids[0]).task,
                                Some(
                                    RoleSelectionModel {
                                        implementation: choice.implementation,
                                        planned_resource: choice.resource_id,
                                        estimated_total_ms: choice.cost.total_ms,
                                        fusion: None,
                                    },
                                ),
                            ),
                        },
                    }
                }
            },
            ReadyModel::Reduction { name, reduction, objects } => if reduction.max_fan_in == 0 {
                Outcome { state: self, answer: Ok(()) }
            } else {
                self.attached_level(
                    job_id,
                    name,
                    reduction.task,
                    self.next_groups(reduction, objects),
                    ids,
                )
            },
        }
    }

    /// Turns the ready roles from `i` on into tasks, up to the first that is refused.
    pub open spec fn materialized_from(
        self,
        job_id: JobId,
        ready: Seq<ReadyModel>,
        i: int,
        now: u64,
        ids: Seq<Seq<TaskId>>,
    ) -> Outcome<()>
        decreases ready.len() - i,
    {
        if i < 0 || i >= ready.len() {
            Outcome { state: self, answer: Ok(()) }
        } else {
            let one = self.materialized_role(job_id, ready[i], now, ids[i]);
            if one.answer is Err {
                one
            } else {
                one.state.materialized_from(job_id, ready, i + 1, now, ids)
            }
        }
    }

    /// Turns the ready roles of a job into tasks, whose identities are given.
    pub open spec fn materialized(self, job_id: JobId, now: u64, ids: Seq<Seq<TaskId>>) -> Outcome<()> {
        if !self.jobs.contains_key(job_id.0) {
            Outcome { state: self, answer: Err(FabricErrorModel::UnknownJob(job_id)) }
        } else {
            self.materialized_from(job_id, ready_roles(self.jobs[job_id.0]), 0, now, ids)
        }
    }

    /// Accepts a job under a new identity and turns its first roles into tasks.
    pub open spec fn accepted(self, definition: JobModel, now: u64, ids: Seq<Seq<TaskId>>) -> Outcome<JobId> {
        let job_id = id_of(definition);
        if self.jobs.contains_key(job_id.0) {
            Outcome { state: self, answer: Err(FabricErrorModel::DuplicateJob(job_id)) }
        } else {
            let started = self.with_job(job_id, fresh_job(definition)).materialized(job_id, now, ids);
            Outcome {
                state: started.state,
                answer: match started.answer {
                    Ok(_) => Ok(job_id),
                    Err(error) => Err(error),
                },
            }
        }
    }

    /// Accepts a job that is valid.
    pub open spec fn enlisted(self, definition: JobModel, now: u64, ids: Seq<Seq<TaskId>>) -> Outcome<JobId> {
        match job_error(definition, self.objects) {
            Some(error) => Outcome { state: self, answer: Err(error) },
            None => self.accepted(definition, now, ids),
        }
    }

    /// Records the outputs of a task with the role, or roles, that it does the work of.
    pub open spec fn role_completed(
        self,
        task_id: TaskId,
        outputs: Seq<ObjectId>,
        now: u64,
        ids: Seq<Seq<TaskId>>,
    ) -> Outcome<()> {
        if !self.task_roles.contains_key(task_id.0) {
            Outcome { state: self, answer: Ok(()) }
        } else {
            match self.task_roles[task_id.0] {
                BindingModel::Single { job_id, role_name } => if !self.jobs.contains_key(job_id.0) {
                    Outcome { state: self, answer: Err(FabricErrorModel::UnknownJob(job_id)) }
                } else if !self.jobs[job_id.0].roles.contains_key(role_name) {
                    Outcome { state: self, answer: Err(missing_role(role_name)) }
                } else {
                    self.with_job(
                        job_id,
                        self.jobs[job_id.0].with_role(
                            role_name,
                            RoleStatusModel::Completed(outputs),
                        ),
                    ).materialized(job_id, now, ids)
                },
                BindingModel::Shard { job_id, role_name, index } => if !self.jobs.contains_key(
                    job_id.0,
                ) {
                    Outcome { state: self, answer: Err(FabricErrorModel::UnknownJob(job_id)) }
                } else if !self.jobs[job_id.0].roles.contains_key(role_name) {
                    Outcome { state: self, answer: Err(missing_role(role_name)) }
                } else {
                    let job = self.jobs[job_id.0];
                    self.with_job(
                        job_id,
                        job.with_role(
                            role_name,
                            after_shard(
                                job.roles[role_name],
                                index,
                                outputs,
                                reduces(job.definition, role_name),
                            ),
                        ),
                    ).materialized(job_id, now, ids)
                },
                BindingModel::Reducer { job_id, role_name, index } => if !self.jobs.contains_key(
                    job_id.0,
                ) {
                    Outcome { state: self, answer: Err(FabricErrorModel::UnknownJob(job_id)) }
                } else if !self.jobs[job_id.0].roles.contains_key(role_name) {
                    Outcome { state: self, answer: Err(missing_role(role_name)) }
                } else {
                    let job = self.jobs[job_id.0];
                    self.with_job(
                        job_id,
                        job.with_role(
                            role_name,
                            after_reducer(job.roles[role_name], index, outputs),
                        ),
                    ).materialized(job_id, now, ids)
                },
                BindingModel::FusedChain { job_id, role_names } => if !self.jobs.contains_key(
                    job_id.0,
                ) {
                    Outcome { state: self, answer: Err(FabricErrorModel::UnknownJob(job_id)) }
                } else if role_names.len() == 0 {
                    Outcome {
                        state: self,
                        answer: Err(
                            FabricErrorModel::InvalidLogicalJob(
                                "runtime state contains an empty fused chain"@,
                            ),
                        ),
                    }
                } else {
                    match missing_stage(self.jobs[job_id.0].roles, role_names, 0) {
                        Some(name) => Outcome {
                            state: self,
                            answer: Err(
                                FabricErrorModel::InvalidLogicalJob(
                                    "runtime state is missing fused role "@ + name,
                                ),
                            ),
                        },
                        None => self.with_job(
                            job_id,
                            self.jobs[job_id.0].with_roles(
                                role_names,
                                RoleStatusModel::Completed(Seq::empty()),
                                (role_names.len() - 1) as nat,
                            ).with_role(role_names.last(), RoleStatusModel::Completed(outputs)),
                        ).materialized(job_id, now, ids),
                    }
                },
            }
        }
    }

    /// Commits the outputs of an execution that owns its task.
    pub open spec fn completed(
        self,
        lease: ExecutionLease,
        outputs: Seq<ObjectModel>,
        now: u64,
        ids: Seq<Seq<TaskId>>,
    ) -> Outcome<()> {
        if self.lease_error(lease, now) is Some {
            Outcome { state: self, answer: Err(self.lease_error(lease, now).unwrap()) }
        } else {
            match conflict_from(self.objects, outputs, 0) {
                Some(id) => Outcome { state: self, answer: Err(FabricErrorModel::ObjectConflict(id)) },
                None => {
                    let stored = self.with_status(
                        lease.task_id.0,
                        TaskStatusModel::Completed(ids_of(outputs)),
                    ).published_from(outputs, 0);
                    if stored.answer is Err {
                        stored
                    } else {
                        stored.state.role_completed(lease.task_id, ids_of(outputs), now, ids)
                    }
                },
            }
        }
    }

    /// A task whose execution lease has expired.
    pub open spec fn overdue(self, task: u128, now: u64) -> bool {
        self.tasks[task].status matches TaskStatusModel::Running(lease) && lease.expires_at_unix_ms <= now
    }

    /// The tasks whose execution lease has expired, by identifier.
    pub open spec fn overdue_keys(self, now: u64) -> Seq<u128> {
        crate::collections::sorted(self.tasks.dom()).filter(|k: u128| self.overdue(k, now))
    }

    /// Those of the overdue tasks that may not be replayed.
    pub open spec fn lost_keys(self, now: u64) -> Seq<u128> {
        crate::collections::sorted(self.tasks.dom()).filter(
            |k: u128| self.overdue(k, now) && !self.tasks[k].spec.effects.replayable(),
        )
    }

    /// Overdue tasks become pending where they may be replayed, and uncertain where not.
    pub open spec fn tasks_reaped(self, now: u64) -> FabricModel {
        FabricModel {
            tasks: Map::new(
                |k: u128| self.tasks.contains_key(k),
                |k: u128|
                    if self.overdue(k, now) {
                        TaskRecordModel {
                            status: if self.tasks[k].spec.effects.replayable() {
                                TaskStatusModel::Pending
                            } else {
                                TaskStatusModel::Uncertain
                            },
                            ..self.tasks[k]
                        }
                    } else {
                        self.tasks[k]
                    },
            ),
            ..self
        }
    }

    /// The role, or roles, of a task become uncertain.
    pub open spec fn role_lost(self, task: u128) -> FabricModel {
        if !self.task_roles.contains_key(task) {
            self
        } else {
            match self.task_roles[task] {
                BindingModel::Single { job_id, role_name } => self.roles_lost(job_id, seq![role_name]),
                BindingModel::Shard { job_id, role_name, .. } => self.roles_lost(
                    job_id,
                    seq![role_name],
                ),
                BindingModel::Reducer { job_id, role_name, .. } => self.roles_lost(
                    job_id,
                    seq![role_name],
                ),
                BindingModel::FusedChain { job_id, role_names } => self.roles_lost(job_id, role_names),
            }
        }
    }

    pub open spec fn roles_lost(self, job_id: JobId, names: Seq<Seq<char>>) -> FabricModel {
        if !self.jobs.contains_key(job_id.0) {
            self
        } else {
            self.with_job(
                job_id,
                self.jobs[job_id.0].with_roles(names, RoleStatusModel::Uncertain, names.len()),
            )
        }
    }

    /// The roles of the first `k` tasks become uncertain.
    pub open spec fn all_lost(self, tasks: Seq<u128>, k: nat) -> FabricModel
        decreases k,
    {
        if k == 0 {
            self
        } else {
            self.all_lost(tasks, (k - 1) as nat).role_lost(tasks[k - 1])
        }
    }

    /// Reaps the executions whose lease has expired.
    pub open spec fn reaped(self, now: u64) -> FabricModel {
        self.tasks_reaped(now).all_lost(self.lost_keys(now), self.lost_keys(now).len())
    }

    /// Turns the ready roles of the jobs from `i` on into tasks, up to the first that is refused.
    pub open spec fn refreshed_from(
        self,
        jobs: Seq<u128>,
        i: int,
        now: u64,
        ids: Seq<Seq<Seq<TaskId>>>,
    ) -> Outcome<()>
        decreases jobs.len() - i,
    {
        if i < 0 || i >= jobs.len() {
            Outcome { state: self, answer: Ok(()) }
        } else {
            let one = self.materialized(JobId(jobs[i]), now, ids[i]);
            if one.answer is Err {
                one
            } else {
                one.state.refreshed_from(jobs, i + 1, now, ids)
            }
        }
    }

    /// Turns the ready roles of every job into tasks, in the order of the identifiers of the jobs.
    pub open spec fn refreshed(self, now: u64, ids: Seq<Seq<Seq<TaskId>>>) -> Outcome<()> {
        self.refreshed_from(crate::collections::sorted(self.jobs.dom()), 0, now, ids)
    }

    /// Every record is kept under its own identifier, a running task under a lease of its own, every
    /// role of a job has a state, and every task of a role belongs to a role of a job that is there.
    pub open spec fn wf(self) -> bool {
        &&& forall|k: u128| #[trigger]
            self.resources.contains_key(k) ==> self.resources[k].descriptor.id.0 == k
                && self.resources[k].descriptor.epoch >= 1 && self.epochs.contains_key(k)
                && self.epochs[k] == self.resources[k].descriptor.epoch
        &&& forall|k: u128| #[trigger] self.objects.contains_key(k) ==> self.objects[k].id.0 == k
        &&& forall|k: u128| #[trigger]
            self.tasks.contains_key(k) ==> self.tasks[k].spec.id.0 == k && (
            self.tasks[k].status matches TaskStatusModel::Running(lease) ==> lease.task_id.0 == k
                && self.issued(lease))
        &&& forall|k: u128| #[trigger]
            self.jobs.contains_key(k) ==> id_of(self.jobs[k].definition).0 == k && staffed(self.jobs[k])
                && sound_graph(self.jobs[k].definition)
        &&& forall|k: u128| #[trigger]
            self.task_roles.contains_key(k) ==> self.tasks.contains_key(k) && self.grounded(
                self.task_roles[k],
            )
    }

    /// A lease of an incarnation that a resource has, or had.
    pub open spec fn issued(self, lease: ExecutionLease) -> bool {
        self.epochs.contains_key(lease.resource_id.0) && lease.resource_epoch
            <= self.epochs[lease.resource_id.0]
    }

    /// A binding to roles of a job that is there.
    pub open spec fn grounded(self, binding: BindingModel) -> bool {
        match binding {
            BindingModel::Single { job_id, role_name } => self.jobs.contains_key(job_id.0)
                && self.jobs[job_id.0].roles.contains_key(role_name),
            BindingModel::Shard { job_id, role_name, .. } => self.jobs.contains_key(job_id.0)
                && self.jobs[job_id.0].roles.contains_key(role_name),
            BindingModel::Reducer { job_id, role_name, .. } => self.jobs.contains_key(job_id.0)
                && self.jobs[job_id.0].roles.contains_key(role_name),
            BindingModel::FusedChain { job_id, role_names } => role_names.len() > 0
                && self.jobs.contains_key(job_id.0) && forall|i: int|
                0 <= i < role_names.len() ==> self.jobs[job_id.0].roles.contains_key(
                    #[trigger] role_names[i],
                ),
        }
    }
}

/// The role graph of a job is valid.
#[verifier::opaque]
pub open spec fn sound_graph(definition: JobModel) -> bool {
    crate::role_graph::well_formed(role_graph_of(definition), outputs_declared(definition))
}

/// The role graph of a valid job is valid.
pub proof fn lemma_sound_graph(definition: JobModel, objects: Map<u128, ObjectModel>)
    requires
        job_error(definition, objects) is None,
    ensures
        sound_graph(definition),
{
    reveal(sound_graph);
    crate::role_graph::law_accepted_graphs_are_well_formed(
        role_graph_of(definition),
        outputs_declared(definition),
    );
}

/// Every role of a job has a state.
pub open spec fn staffed(job: JobRecordModel) -> bool {
    forall|i: int|
        0 <= i < role_graph_of(job.definition).len() ==> job.roles.contains_key(
            (#[trigger] role_graph_of(job.definition)[i]).name,
        )
}

pub open spec fn missing_role(name: Seq<char>) -> FabricErrorModel {
    FabricErrorModel::InvalidCooperativeJob("runtime state is missing role "@ + name)
}

/// The first stage from `i` on whose role has no state.
pub open spec fn missing_stage(
    statuses: Map<Seq<char>, RoleStatusModel>,
    names: Seq<Seq<char>>,
    i: int,
) -> Option<Seq<char>>
    decreases names.len() - i,
{
    if i < 0 || i >= names.len() {
        None
    } else if !statuses.contains_key(names[i]) {
        Some(names[i])
    } else {
        missing_stage(statuses, names, i + 1)
    }
}

/// The stages of a binding that is grounded all have states.
pub proof fn lemma_no_missing_stage(statuses: Map<Seq<char>, RoleStatusModel>, names: Seq<Seq<char>>, i: int)
    requires
        0 <= i,
        forall|j: int| 0 <= j < names.len() ==> statuses.contains_key(#[trigger] names[j]),
    ensures
        missing_stage(statuses, names, i) is None,
    decreases names.len() - i,
{
    if i < names.len() {
        lemma_no_missing_stage(statuses, names, i + 1);
    }
}

/// The tasks of chosen shards, none of which has put anything out.
pub open spec fn shard_statuses(choices: Seq<ShardChoice>) -> Seq<ShardStatusModel> {
    Seq::new(
        choices.len(),
        |i: int| ShardStatusModel { task_id: choices[i].task.id, outputs: None },
    )
}

/// How chosen shards are shown.
pub open spec fn shard_views(choices: Seq<ShardChoice>) -> Seq<RoleShardModel> {
    Seq::new(
        choices.len(),
        |i: int|
            RoleShardModel {
                index: choices[i].index,
                task_id: choices[i].task.id,
                implementation: choices[i].implementation,
                planned_resource: choices[i].resource_id,
                estimated_total_ms: choices[i].cost.total_ms,
                partition: match choices[i].task.shard {
                    Some(shard) => shard.partition,
                    None => None,
                },
            },
    )
}

/// Choices for tasks of given identities.
pub open spec fn named_choices(choices: Seq<ShardChoice>, ids: Seq<TaskId>) -> Seq<ShardChoice> {
    Seq::new(choices.len(), |i: int| choices[i].named(ids[i]))
}

/// Whether the state is well formed does not depend on the links and settings.
pub proof fn lemma_wf_frame(a: FabricModel, b: FabricModel)
    requires
        a.wf(),
        b.resources == a.resources,
        b.epochs == a.epochs,
        b.objects == a.objects,
        b.tasks == a.tasks,
        b.jobs == a.jobs,
        b.task_roles == a.task_roles,
    ensures
        b.wf(),
{
    assert forall|k: u128| #[trigger] b.task_roles.contains_key(k) implies b.tasks.contains_key(k)
        && b.grounded(b.task_roles[k]) by {
        assert(a.grounded(a.task_roles[k]));
    }
}

/// Admitting a resource keeps the state well formed.
pub proof fn lemma_wf_registered(a: FabricModel, descriptor: ResourceModel, now: u64)
    requires
        a.wf(),
        a.next_epoch(descriptor) <= u64::MAX,
    ensures
        a.registered(descriptor, now).wf(),
{
    let b = a.registered(descriptor, now);
    assert forall|k: u128| #[trigger] b.resources.contains_key(k) implies b.resources[k].descriptor.id.0 == k
        && b.resources[k].descriptor.epoch >= 1 && b.epochs.contains_key(k) && b.epochs[k]
        == b.resources[k].descriptor.epoch by {
        if k != descriptor.id.0 {
            assert(a.resources.contains_key(k));
        }
    }
    assert forall|k: u128| #[trigger] b.tasks.contains_key(k) implies b.tasks[k].spec.id.0 == k && (
    b.tasks[k].status matches TaskStatusModel::Running(lease) ==> lease.task_id.0 == k && b.issued(lease)) by {
        assert(a.tasks.contains_key(k));
    }
    assert forall|k: u128| #[trigger] b.task_roles.contains_key(k) implies b.tasks.contains_key(k)
        && b.grounded(b.task_roles[k]) by {
        assert(a.grounded(a.task_roles[k]));
    }
}

/// Removing a resource keeps the state well formed.
pub proof fn lemma_wf_without_resource(a: FabricModel, resource_id: ResourceId)
    requires
        a.wf(),
    ensures
        a.without_resource(resource_id).wf(),
{
    let b = a.without_resource(resource_id);
    assert forall|k: u128| #[trigger] b.task_roles.contains_key(k) implies b.tasks.contains_key(k)
        && b.grounded(b.task_roles[k]) by {
        assert(a.grounded(a.task_roles[k]));
    }
}

/// A state that differs from a well-formed one in objects, each under its own identifier, is well
/// formed.
pub proof fn lemma_wf_objects(a: FabricModel, objects: Map<u128, ObjectModel>)
    requires
        a.wf(),
        forall|k: u128| #[trigger] objects.contains_key(k) ==> objects[k].id.0 == k,
    ensures
        (FabricModel { objects, ..a }).wf(),
{
    let b = FabricModel { objects, ..a };
    assert forall|k: u128| #[trigger] b.task_roles.contains_key(k) implies b.tasks.contains_key(k)
        && b.grounded(b.task_roles[k]) by {
        assert(a.grounded(a.task_roles[k]));
    }
}

/// A state that has more tasks than a well-formed one, or the same in other states, is well formed.
pub proof fn lemma_wf_tasks(a: FabricModel, tasks: Map<u128, TaskRecordModel>)
    requires
        a.wf(),
        a.tasks.dom().subset_of(tasks.dom()),
        forall|k: u128| #[trigger]
            tasks.contains_key(k) ==> tasks[k].spec.id.0 == k && (
            tasks[k].status matches TaskStatusModel::Running(lease) ==> lease.task_id.0 == k && a.issued(
                lease,
            )),
    ensures
        (FabricModel { tasks, ..a }).wf(),
{
    let b = FabricModel { tasks, ..a };
    assert forall|k: u128| #[trigger] b.task_roles.contains_key(k) implies b.tasks.contains_key(k)
        && b.grounded(b.task_roles[k]) by {
        assert(a.grounded(a.task_roles[k]));
        assert(a.tasks.dom().contains(k));
        assert(tasks.dom().contains(k));
    }
}

/// The job is still there, with the same definition and at least the same roles.
pub open spec fn keeps_job(a: FabricModel, b: FabricModel, job_id: JobId) -> bool {
    &&& a.jobs.contains_key(job_id.0) ==> {
        &&& b.jobs.contains_key(job_id.0)
        &&& b.jobs[job_id.0].definition == a.jobs[job_id.0].definition
        &&& a.jobs[job_id.0].roles.dom().subset_of(b.jobs[job_id.0].roles.dom())
    }
}

/// The roles of a ready role have states in the job.
pub open spec fn placeable(m: FabricModel, job_id: JobId, ready: ReadyModel) -> bool {
    &&& m.jobs.contains_key(job_id.0)
    &&& match ready {
        ReadyModel::Cooperative { name, .. } => m.jobs[job_id.0].roles.contains_key(name),
        ReadyModel::Logical { role, chain, .. } => {
            &&& m.jobs[job_id.0].roles.contains_key(role.name)
            &&& forall|i: int|
                0 <= i < chain.len() ==> m.jobs[job_id.0].roles.contains_key(
                    (#[trigger] chain[i]).name,
                )
        },
        ReadyModel::Reduction { name, .. } => m.jobs[job_id.0].roles.contains_key(name),
    }
}

/// Changing the record of a job, but neither its definition nor the set of its roles other than by
/// addition, keeps the state well formed.
pub proof fn lemma_wf_with_job(a: FabricModel, job_id: JobId, job: JobRecordModel)
    requires
        a.wf(),
        a.jobs.contains_key(job_id.0),
        job.definition == a.jobs[job_id.0].definition,
        a.jobs[job_id.0].roles.dom().subset_of(job.roles.dom()),
    ensures
        a.with_job(job_id, job).wf(),
        keeps_job(a, a.with_job(job_id, job), job_id),
{
    let b = a.with_job(job_id, job);
    let before = a.jobs[job_id.0];
    assert(staffed(job)) by {
        assert forall|i: int| 0 <= i < role_graph_of(job.definition).len() implies job.roles.contains_key(
            (#[trigger] role_graph_of(job.definition)[i]).name,
        ) by {
            assert(before.roles.dom().contains(role_graph_of(before.definition)[i].name));
            assert(job.roles.dom().contains(role_graph_of(before.definition)[i].name));
        }
    }
    assert forall|k: u128| #[trigger] b.task_roles.contains_key(k) implies b.tasks.contains_key(k)
        && b.grounded(b.task_roles[k]) by {
        assert(a.grounded(a.task_roles[k]));
        lemma_grounded_grows(a, b, a.task_roles[k]);
    }
}

/// A binding stays grounded where no job and no role is lost.
proof fn lemma_grounded_grows(a: FabricModel, b: FabricModel, binding: BindingModel)
    requires
        a.grounded(binding),
        forall|j: u128| #[trigger]
            a.jobs.contains_key(j) ==> b.jobs.contains_key(j) && a.jobs[j].roles.dom().subset_of(
                b.jobs[j].roles.dom(),
            ),
    ensures
        b.grounded(binding),
{
    match binding {
        BindingModel::Single { job_id, role_name } => {
            assert(a.jobs[job_id.0].roles.dom().contains(role_name));
        },
        BindingModel::Shard { job_id, role_name, .. } => {
            assert(a.jobs[job_id.0].roles.dom().contains(role_name));
        },
        BindingModel::Reducer { job_id, role_name, .. } => {
            assert(a.jobs[job_id.0].roles.dom().contains(role_name));
        },
        BindingModel::FusedChain { job_id, role_names } => {
            assert forall|i: int| 0 <= i < role_names.len() implies b.jobs[job_id.0].roles.contains_key(
                #[trigger] role_names[i],
            ) by {
                assert(a.jobs[job_id.0].roles.dom().contains(role_names[i]));
            }
        },
    }
}

/// Binding a known task to roles that are there keeps the state well formed.
pub proof fn lemma_wf_bound(a: FabricModel, task_id: TaskId, binding: BindingModel)
    requires
        a.wf(),
        a.tasks.contains_key(task_id.0),
        a.grounded(binding),
    ensures
        a.bound(task_id, binding).wf(),
{
    let b = a.bound(task_id, binding);
    assert forall|k: u128| #[trigger] b.task_roles.contains_key(k) implies b.tasks.contains_key(k)
        && b.grounded(b.task_roles[k]) by {
        if k == task_id.0 {
            lemma_grounded_grows(a, b, binding);
        } else {
            assert(a.grounded(a.task_roles[k]));
            lemma_grounded_grows(a, b, a.task_roles[k]);
        }
    }
}

/// Submitting a task keeps the state well formed.
pub proof fn lemma_wf_submitted(a: FabricModel, task: TaskModel)
    requires
        a.wf(),
    ensures
        a.submitted(task).state.wf(),
        a.submitted(task).state.jobs == a.jobs,
        a.submitted(task).answer is Ok ==> a.submitted(task).state.tasks.contains_key(task.id.0),
{
    lemma_wf_tasks(a, a.submitted(task).state.tasks);
}

pub proof fn lemma_wf_attached(
    a: FabricModel,
    job_id: JobId,
    name: Seq<char>,
    task: TaskModel,
    selection: Option<RoleSelectionModel>,
)
    requires
        a.wf(),
        a.jobs.contains_key(job_id.0),
        a.jobs[job_id.0].roles.contains_key(name),
    ensures
        a.attached(job_id, name, task, selection).state.wf(),
        keeps_job(a, a.attached(job_id, name, task, selection).state, job_id),
{
    lemma_wf_submitted(a, task);
    let one = a.submitted(task);
    if one.answer is Ok {
        let binding = BindingModel::Single { job_id, role_name: name };
        lemma_wf_bound(one.state, task.id, binding);
        let job = a.jobs[job_id.0];
        lemma_wf_with_job(
            one.state.bound(task.id, binding),
            job_id,
            JobRecordModel {
                selections: match selection {
                    Some(chosen) => job.selections.insert(name, chosen),
                    None => job.selections,
                },
                ..job.with_role(name, RoleStatusModel::Submitted(task.id))
            },
        );
    }
}

pub proof fn lemma_with_stages(job: JobRecordModel, names: Seq<Seq<char>>, choice: FusionChoice, k: nat)
    requires
        k <= names.len(),
    ensures
        job.with_stages(names, choice, k).definition == job.definition,
        job.roles.dom().subset_of(job.with_stages(names, choice, k).roles.dom()),
    decreases k,
{
    if k > 0 {
        lemma_with_stages(job, names, choice, (k - 1) as nat);
    }
}

pub proof fn lemma_wf_attached_fused(
    a: FabricModel,
    job_id: JobId,
    names: Seq<Seq<char>>,
    choice: FusionChoice,
)
    requires
        a.wf(),
        a.jobs.contains_key(job_id.0),
        names.len() > 0,
        forall|i: int|
            0 <= i < names.len() ==> a.jobs[job_id.0].roles.contains_key(#[trigger] names[i]),
    ensures
        a.attached_fused(job_id, names, choice).state.wf(),
        keeps_job(a, a.attached_fused(job_id, names, choice).state, job_id),
{
    lemma_wf_submitted(a, choice.task);
    let one = a.submitted(choice.task);
    if one.answer is Ok {
        let binding = BindingModel::FusedChain { job_id, role_names: names };
        lemma_wf_bound(one.state, choice.task.id, binding);
        lemma_with_stages(a.jobs[job_id.0], names, choice, names.len());
        lemma_wf_with_job(
            one.state.bound(choice.task.id, binding),
            job_id,
            a.jobs[job_id.0].with_stages(names, choice, names.len()),
        );
    }
}

pub proof fn lemma_wf_shards_submitted(
    a: FabricModel,
    job_id: JobId,
    name: Seq<char>,
    choices: Seq<ShardChoice>,
    k: int,
)
    requires
        a.wf(),
        a.jobs.contains_key(job_id.0),
        a.jobs[job_id.0].roles.contains_key(name),
    ensures
        a.shards_submitted(job_id, name, choices, k).state.wf(),
        a.shards_submitted(job_id, name, choices, k).state.jobs == a.jobs,
    decreases choices.len() - k,
{
    if 0 <= k < choices.len() {
        lemma_wf_submitted(a, choices[k].task);
        let one = a.submitted(choices[k].task);
        if one.answer is Ok {
            let binding = BindingModel::Shard { job_id, role_name: name, index: k as usize };
            lemma_wf_bound(one.state, choices[k].task.id, binding);
            lemma_wf_shards_submitted(
                one.state.bound(choices[k].task.id, binding),
                job_id,
                name,
                choices,
                k + 1,
            );
        }
    }
}

pub proof fn lemma_wf_attached_shards(
    a: FabricModel,
    job_id: JobId,
    name: Seq<char>,
    choices: Seq<ShardChoice>,
)
    requires
        a.wf(),
        a.jobs.contains_key(job_id.0),
        a.jobs[job_id.0].roles.contains_key(name),
    ensures
        a.attached_shards(job_id, name, choices).state.wf(),
        keeps_job(a, a.attached_shards(job_id, name, choices).state, job_id),
{
    lemma_wf_shards_submitted(a, job_id, name, choices, 0);
    let all = a.shards_submitted(job_id, name, choices, 0);
    if all.answer is Ok {
        let job = a.jobs[job_id.0];
        lemma_wf_with_job(
            all.state,
            job_id,
            JobRecordModel {
                shards: job.shards.insert(name, shard_views(choices)),
                ..job.with_role(name, RoleStatusModel::Sharded(shard_statuses(choices)))
            },
        );
    }
}

pub proof fn lemma_wf_reducers_submitted(
    a: FabricModel,
    job_id: JobId,
    name: Seq<char>,
    task: TemplateModel,
    groups: Seq<Seq<ObjectId>>,
    ids: Seq<TaskId>,
    k: int,
)
    requires
        a.wf(),
        a.jobs.contains_key(job_id.0),
        a.jobs[job_id.0].roles.contains_key(name),
    ensures
        a.reducers_submitted(job_id, name, task, groups, ids, k).state.wf(),
        a.reducers_submitted(job_id, name, task, groups, ids, k).state.jobs == a.jobs,
    decreases groups.len() - k,
{
    if 0 <= k < groups.len() {
        if groups[k].len() <= 1 {
            lemma_wf_reducers_submitted(a, job_id, name, task, groups, ids, k + 1);
        } else {
            let reducer = task.instantiated(groups[k], ids[k]);
            lemma_wf_submitted(a, reducer);
            let one = a.submitted(reducer);
            if one.answer is Ok {
                let binding = BindingModel::Reducer { job_id, role_name: name, index: k as usize };
                lemma_wf_bound(one.state, ids[k], binding);
                lemma_wf_reducers_submitted(
                    one.state.bound(ids[k], binding),
                    job_id,
                    name,
                    task,
                    groups,
                    ids,
                    k + 1,
                );
            }
        }
    }
}

pub proof fn lemma_wf_attached_level(
    a: FabricModel,
    job_id: JobId,
    name: Seq<char>,
    task: TemplateModel,
    groups: Seq<Seq<ObjectId>>,
    ids: Seq<TaskId>,
)
    requires
        a.wf(),
        a.jobs.contains_key(job_id.0),
        a.jobs[job_id.0].roles.contains_key(name),
    ensures
        a.attached_level(job_id, name, task, groups, ids).state.wf(),
        keeps_job(a, a.attached_level(job_id, name, task, groups, ids).state, job_id),
{
    lemma_wf_reducers_submitted(a, job_id, name, task, groups, ids, 0);
    let all = a.reducers_submitted(job_id, name, task, groups, ids, 0);
    if all.answer is Ok {
        lemma_wf_with_job(
            all.state,
            job_id,
            a.jobs[job_id.0].with_role(name, RoleStatusModel::Reducing(level_statuses(groups, ids))),
        );
    }
}

pub proof fn lemma_wf_materialized_role(
    a: FabricModel,
    job_id: JobId,
    ready: ReadyModel,
    now: u64,
    ids: Seq<TaskId>,
)
    requires
        a.wf(),
        placeable(a, job_id, ready),
    ensures
        a.materialized_role(job_id, ready, now, ids).state.wf(),
        keeps_job(a, a.materialized_role(job_id, ready, now, ids).state, job_id),
{
    reveal(FabricModel::materialized_role);
    match ready {
        ReadyModel::Cooperative { name, task, inputs } => {
            lemma_wf_attached(a, job_id, name, task.instantiated(inputs, ids[0]), None);
        },
        ReadyModel::Logical { role, inputs, chain } => {
            let context = a.context(now);
            lemma_wf_with_job(
                a,
                job_id,
                a.jobs[job_id.0].with_role(role.name, RoleStatusModel::Ready),
            );
            if !role.shards.single() {
                if let Some(plan) = crate::shards::role_shards(
                    context,
                    role,
                    inputs,
                    Binary64 { bits: 0 },
                    Map::empty(),
                ) {
                    lemma_wf_attached_shards(
                        a,
                        job_id,
                        role.name,
                        named_choices(plan.choices, ids),
                    );
                }
            } else {
                let fusion = FusionModel {
                    context,
                    advisor: FusionAdvisor { minimum_saved_transfer_ms: Binary64::nearest_to(20) },
                };
                crate::chains::law_fusion_is_sound(fusion, chain, inputs);
                if let Some(choice) = crate::chains::best_fusion(fusion, chain, inputs) {
                    let names = names_of(chain, choice.implementations.len());
                    assert forall|i: int| 0 <= i < names.len() implies a.jobs[job_id.0].roles.contains_key(
                        #[trigger] names[i],
                    ) by {
                        assert(names[i] == chain[i].name);
                    }
                    lemma_wf_attached_fused(a, job_id, names, choice.named(ids[0]));
                } else if let Some(choice) = crate::planner::best_implementation(
                    context,
                    role,
                    inputs,
                    role.implementations.len(),
                ) {
                    lemma_wf_attached(
                        a,
                        job_id,
                        role.name,
                        choice.named(ids[0]).task,
                        Some(
                            RoleSelectionModel {
                                implementation: choice.implementation,
                                planned_resource: choice.resource_id,
                                estimated_total_ms: choice.cost.total_ms,
                                fusion: None,
                            },
                        ),
                    );
                }
            }
        },
        ReadyModel::Reduction { name, reduction, objects } => {
            if reduction.max_fan_in > 0 {
                lemma_wf_attached_level(
                    a,
                    job_id,
                    name,
                    reduction.task,
                    a.next_groups(reduction, objects),
                    ids,
                );
            }
        },
    }
}

/// A ready role stays placeable as long as the job is kept.
pub proof fn lemma_placeable_kept(a: FabricModel, b: FabricModel, job_id: JobId, ready: ReadyModel)
    requires
        placeable(a, job_id, ready),
        keeps_job(a, b, job_id),
    ensures
        placeable(b, job_id, ready),
{
    let before = a.jobs[job_id.0].roles;
    let after = b.jobs[job_id.0].roles;
    assert forall|name: Seq<char>| before.contains_key(name) implies after.contains_key(name) by {
        assert(before.dom().contains(name));
        assert(after.dom().contains(name));
    }
}

/// A chain grows by roles that have states.
pub proof fn lemma_chain_has_states(
    job: LogicalJobModel,
    statuses: Map<Seq<char>, RoleStatusModel>,
    chain: Seq<LogicalRoleModel>,
    limit: nat,
)
    requires
        chain.len() > 0,
        forall|i: int| 0 <= i < chain.len() ==> statuses.contains_key((#[trigger] chain[i]).name),
    ensures
        ({
            let r = chain_from(job, statuses, chain, limit);
            r.len() > 0 && forall|i: int|
                0 <= i < r.len() ==> statuses.contains_key((#[trigger] r[i]).name)
        }),
    decreases limit,
{
    if limit > 0 {
        if let Some(i) = next_in_chain(job, statuses, chain.last()) {
            lemma_chain_has_states(job, statuses, chain.push(job.roles[i]), (limit - 1) as nat);
        }
    }
}

proof fn lemma_ready_cooperative_placeable(m: FabricModel, job_id: JobId, roles: Seq<CooperativeRoleModel>, i: int)
    requires
        m.jobs.contains_key(job_id.0),
    ensures
        forall|k: int|
            0 <= k < ready_cooperative(roles, m.jobs[job_id.0].roles, i).len() ==> placeable(
                m,
                job_id,
                #[trigger] ready_cooperative(roles, m.jobs[job_id.0].roles, i)[k],
            ),
    decreases roles.len() - i,
{
    let statuses = m.jobs[job_id.0].roles;
    if 0 <= i < roles.len() {
        lemma_ready_cooperative_placeable(m, job_id, roles, i + 1);
        let all = ready_cooperative(roles, statuses, i);
        let rest = ready_cooperative(roles, statuses, i + 1);
        assert forall|k: int| 0 <= k < all.len() implies placeable(m, job_id, #[trigger] all[k]) by {
            if all.len() > rest.len() {
                if k > 0 {
                    assert(all[k] == rest[k - 1]);
                }
            } else {
                assert(all[k] == rest[k]);
            }
        }
    }
}

proof fn lemma_ready_logical_placeable(m: FabricModel, job_id: JobId, job: LogicalJobModel, i: int)
    requires
        m.jobs.contains_key(job_id.0),
    ensures
        forall|k: int|
            0 <= k < ready_logical(job, m.jobs[job_id.0].roles, i).len() ==> placeable(
                m,
                job_id,
                #[trigger] ready_logical(job, m.jobs[job_id.0].roles, i)[k],
            ),
    decreases job.roles.len() - i,
{
    let statuses = m.jobs[job_id.0].roles;
    if 0 <= i < job.roles.len() {
        lemma_ready_logical_placeable(m, job_id, job, i + 1);
        let role = job.roles[i];
        if statuses.contains_key(role.name) {
            lemma_chain_has_states(job, statuses, seq![role], job.roles.len());
        }
        let all = ready_logical(job, statuses, i);
        let rest = ready_logical(job, statuses, i + 1);
        assert forall|k: int| 0 <= k < all.len() implies placeable(m, job_id, #[trigger] all[k]) by {
            if all.len() > rest.len() {
                if k > 0 {
                    assert(all[k] == rest[k - 1]);
                }
            } else {
                assert(all[k] == rest[k]);
            }
        }
    }
}

/// The ready roles of a job are placeable.
pub proof fn lemma_ready_roles_placeable(m: FabricModel, job_id: JobId)
    requires
        m.jobs.contains_key(job_id.0),
    ensures
        forall|k: int|
            0 <= k < ready_roles(m.jobs[job_id.0]).len() ==> placeable(
                m,
                job_id,
                #[trigger] ready_roles(m.jobs[job_id.0])[k],
            ),
{
    match m.jobs[job_id.0].definition {
        JobModel::Cooperative(spec) => {
            lemma_ready_cooperative_placeable(m, job_id, spec.roles, 0);
        },
        JobModel::Logical(spec) => {
            lemma_ready_logical_placeable(m, job_id, spec, 0);
        },
    }
}

/// A new job keeps the state well formed.
pub proof fn lemma_wf_new_job(a: FabricModel, definition: JobModel)
    requires
        a.wf(),
        !a.jobs.contains_key(id_of(definition).0),
        sound_graph(definition),
    ensures
        a.with_job(id_of(definition), fresh_job(definition)).wf(),
{
    let job = fresh_job(definition);
    let graph = role_graph_of(definition);
    let b = a.with_job(id_of(definition), job);
    assert forall|i: int| 0 <= i < graph.len() implies job.roles.contains_key((#[trigger] graph[i]).name) by {
        assert(crate::role_graph::named(graph, graph[i].name));
    }
    assert forall|k: u128| #[trigger] b.task_roles.contains_key(k) implies b.tasks.contains_key(k)
        && b.grounded(b.task_roles[k]) by {
        assert(a.grounded(a.task_roles[k]));
        lemma_grounded_grows(a, b, a.task_roles[k]);
    }
}

/// Putting roles into a state changes neither the definition of a job nor the set of its roles.
pub proof fn lemma_with_roles(job: JobRecordModel, names: Seq<Seq<char>>, status: RoleStatusModel, k: nat)
    requires
        k <= names.len(),
    ensures
        job.with_roles(names, status, k).definition == job.definition,
        job.with_roles(names, status, k).selections == job.selections,
        job.with_roles(names, status, k).shards == job.shards,
        job.with_roles(names, status, k).roles.dom() == job.roles.dom(),
        forall|name: Seq<char>| #[trigger]
            job.roles.contains_key(name) ==> job.with_roles(names, status, k).roles[name] == if names.take(
                k as int,
            ).contains(name) {
                status
            } else {
                job.roles[name]
            },
    decreases k,
{
    if k > 0 {
        lemma_with_roles(job, names, status, (k - 1) as nat);
        let before = job.with_roles(names, status, (k - 1) as nat);
        let after = job.with_roles(names, status, k);
        assert(after.roles.dom() =~= job.roles.dom());
        let shorter = names.take(k - 1);
        let longer = names.take(k as int);
        assert forall|name: Seq<char>| #[trigger] job.roles.contains_key(name) implies after.roles[name]
            == if longer.contains(name) {
            status
        } else {
            job.roles[name]
        } by {
            assert(longer =~= shorter.push(names[k - 1]));
            assert(longer.contains(name) <==> shorter.contains(name) || name == names[k - 1]) by {
                if shorter.contains(name) {
                    let i = choose|i: int| 0 <= i < shorter.len() && shorter[i] == name;
                    assert(longer[i] == name);
                }
                assert(longer[k - 1] == names[k - 1]);
            }
            assert(before.roles.dom().contains(name));
        }
    } else {
        assert forall|name: Seq<char>| !names.take(0).contains(name) by {}
    }
}

/// Publishing an object keeps the state well formed, and changes nothing but the objects.
pub proof fn lemma_wf_published(a: FabricModel, object: ObjectModel)
    requires
        a.wf(),
    ensures
        a.published(object).state.wf(),
        a.published(object).state == (FabricModel { objects: a.published(object).state.objects, ..a }),
{
    lemma_wf_objects(a, a.published(object).state.objects);
}

pub proof fn lemma_wf_published_from(a: FabricModel, objects: Seq<ObjectModel>, i: int)
    requires
        a.wf(),
    ensures
        a.published_from(objects, i).state.wf(),
        a.published_from(objects, i).state == (FabricModel {
            objects: a.published_from(objects, i).state.objects,
            ..a
        }),
    decreases objects.len() - i,
{
    if 0 <= i < objects.len() {
        lemma_wf_published(a, objects[i]);
        let one = a.published(objects[i]);
        if one.answer is Ok {
            lemma_wf_published_from(one.state, objects, i + 1);
        }
    }
}

/// Losing the roles of a task keeps the state well formed, and changes nothing but the jobs.
pub proof fn lemma_wf_role_lost(a: FabricModel, task: u128)
    requires
        a.wf(),
    ensures
        a.role_lost(task).wf(),
        a.role_lost(task) == (FabricModel { jobs: a.role_lost(task).jobs, ..a }),
{
    if a.task_roles.contains_key(task) {
        let (job_id, names) = match a.task_roles[task] {
            BindingModel::Single { job_id, role_name } => (job_id, seq![role_name]),
            BindingModel::Shard { job_id, role_name, .. } => (job_id, seq![role_name]),
            BindingModel::Reducer { job_id, role_name, .. } => (job_id, seq![role_name]),
            BindingModel::FusedChain { job_id, role_names } => (job_id, role_names),
        };
        assert(a.grounded(a.task_roles[task]));
        lemma_with_roles(a.jobs[job_id.0], names, RoleStatusModel::Uncertain, names.len());
        lemma_wf_with_job(
            a,
            job_id,
            a.jobs[job_id.0].with_roles(names, RoleStatusModel::Uncertain, names.len()),
        );
    }
}

pub proof fn lemma_wf_all_lost(a: FabricModel, tasks: Seq<u128>, k: nat)
    requires
        a.wf(),
        k <= tasks.len(),
    ensures
        a.all_lost(tasks, k).wf(),
        a.all_lost(tasks, k) == (FabricModel { jobs: a.all_lost(tasks, k).jobs, ..a }),
    decreases k,
{
    if k > 0 {
        lemma_wf_all_lost(a, tasks, (k - 1) as nat);
        lemma_wf_role_lost(a.all_lost(tasks, (k - 1) as nat), tasks[k - 1]);
    }
}

/// Reaping keeps the state well formed.
pub proof fn lemma_wf_reaped(a: FabricModel, now: u64)
    requires
        a.wf(),
    ensures
        a.tasks_reaped(now).wf(),
        a.reaped(now).wf(),
        a.reaped(now) == (FabricModel {
            tasks: a.tasks_reaped(now).tasks,
            jobs: a.reaped(now).jobs,
            ..a
        }),
{
    lemma_wf_tasks(a, a.tasks_reaped(now).tasks);
    lemma_wf_all_lost(a.tasks_reaped(now), a.lost_keys(now), a.lost_keys(now).len());
}

}

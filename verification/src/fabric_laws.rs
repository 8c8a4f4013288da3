//! What holds of the fabric whatever is asked of it.

use vstd::prelude::*;

use crate::binary64::Binary64;
use crate::chains::{FusionChoice, FusionModel};
use crate::fabric_model::{BindingModel, FabricModel, JobRecordModel, ReadyModel};
use crate::ids::{ExecutionId, JobId, ObjectId, ResourceId, TaskId};
use crate::jobs::{CooperativeRoleModel, JobModel, LogicalJobModel, LogicalRoleModel, ReductionModel};
use crate::objects::ObjectModel;
use crate::resources::ResourceModel;
use crate::scheduler::FusionAdvisor;
use crate::shards::ShardChoice;
use crate::status::{
    FabricErrorModel, JobStatusModel, ReductionStatusModel, RoleSelectionModel, RoleStatusModel,
    ShardStatusModel, TaskStatusModel,
};
use crate::tasks::{ExecutionLease, TaskModel, TemplateModel};
use crate::topology::LinkProfile;

verus! {

/// Nothing but the record of a job has changed, and tasks that wait for a resource have been added,
/// with their bindings.
pub open spec fn extends(a: FabricModel, b: FabricModel, job_id: JobId) -> bool {
    &&& b == (FabricModel { tasks: b.tasks, jobs: b.jobs, task_roles: b.task_roles, ..a })
    &&& forall|k: u128| #[trigger]
        a.tasks.contains_key(k) ==> b.tasks.contains_key(k) && b.tasks[k] == a.tasks[k]
    &&& forall|k: u128| #[trigger]
        b.tasks.contains_key(k) && !a.tasks.contains_key(k) ==> b.tasks[k].status is Pending
    &&& forall|k: u128| #[trigger]
        a.task_roles.contains_key(k) ==> b.task_roles.contains_key(k) && b.task_roles[k] == a.task_roles[k]
    &&& forall|k: u128| #[trigger]
        a.jobs.contains_key(k) ==> b.jobs.contains_key(k) && b.jobs[k].definition == a.jobs[k].definition
            && (k != job_id.0 ==> b.jobs[k] == a.jobs[k])
    &&& forall|k: u128| #[trigger] b.jobs.contains_key(k) ==> a.jobs.contains_key(k)
}

/// A role that has neither started nor ended.
pub open spec fn unstarted(statuses: Map<Seq<char>, RoleStatusModel>, name: Seq<char>) -> bool {
    statuses.contains_key(name) && (statuses[name] is Waiting || statuses[name] is Ready)
}

/// A role that has neither started nor ended, or that stands between two levels of its reduction.
pub open spec fn idle(statuses: Map<Seq<char>, RoleStatusModel>, name: Seq<char>) -> bool {
    unstarted(statuses, name) || (statuses.contains_key(name) && statuses[name] is Reducible)
}

/// The roles of a job that were at work, or had ended, by a given state are as they were.
pub open spec fn settled(
    statuses: Map<Seq<char>, RoleStatusModel>,
    a: FabricModel,
    b: FabricModel,
    job_id: JobId,
) -> bool {
    forall|name: Seq<char>| #[trigger]
        a.jobs[job_id.0].roles.contains_key(name) && !idle(statuses, name)
            ==> b.jobs[job_id.0].roles.contains_key(name) && b.jobs[job_id.0].roles[name]
            == a.jobs[job_id.0].roles[name]
}

/// The roles that a ready role is to occupy are idle.
pub open spec fn claims_idle(statuses: Map<Seq<char>, RoleStatusModel>, ready: ReadyModel) -> bool {
    match ready {
        ReadyModel::Cooperative { name, .. } => idle(statuses, name),
        ReadyModel::Logical { role, chain, .. } => idle(statuses, role.name) && forall|i: int|
            0 <= i < chain.len() ==> idle(statuses, (#[trigger] chain[i]).name),
        ReadyModel::Reduction { name, .. } => idle(statuses, name),
    }
}

proof fn lemma_extends_trans(a: FabricModel, b: FabricModel, c: FabricModel, job_id: JobId)
    requires
        extends(a, b, job_id),
        extends(b, c, job_id),
    ensures
        extends(a, c, job_id),
{
    assert forall|k: u128| #[trigger] a.tasks.contains_key(k) implies c.tasks.contains_key(k) && c.tasks[k]
        == a.tasks[k] by {
        assert(b.tasks.contains_key(k));
    }
    assert forall|k: u128| #[trigger] c.tasks.contains_key(k) && !a.tasks.contains_key(k) implies c.tasks[k].status
        is Pending by {
        if b.tasks.contains_key(k) {
            assert(c.tasks[k] == b.tasks[k]);
        }
    }
    assert forall|k: u128| #[trigger] a.task_roles.contains_key(k) implies c.task_roles.contains_key(k)
        && c.task_roles[k] == a.task_roles[k] by {
        assert(b.task_roles.contains_key(k));
    }
    assert forall|k: u128| #[trigger] a.jobs.contains_key(k) implies c.jobs.contains_key(k)
        && c.jobs[k].definition == a.jobs[k].definition && (k != job_id.0 ==> c.jobs[k] == a.jobs[k]) by {
        assert(b.jobs.contains_key(k));
    }
}

proof fn lemma_settled_trans(
    statuses: Map<Seq<char>, RoleStatusModel>,
    a: FabricModel,
    b: FabricModel,
    c: FabricModel,
    job_id: JobId,
)
    requires
        settled(statuses, a, b, job_id),
        settled(statuses, b, c, job_id),
    ensures
        settled(statuses, a, c, job_id),
{
    assert forall|name: Seq<char>| #[trigger]
        a.jobs[job_id.0].roles.contains_key(name) && !idle(statuses, name) implies c.jobs[job_id.0].roles.contains_key(
        name,
    ) && c.jobs[job_id.0].roles[name] == a.jobs[job_id.0].roles[name] by {
        assert(b.jobs[job_id.0].roles.contains_key(name));
    }
}

proof fn lemma_attached_extends(
    statuses: Map<Seq<char>, RoleStatusModel>,
    a: FabricModel,
    job_id: JobId,
    name: Seq<char>,
    task: TaskModel,
    selection: Option<RoleSelectionModel>,
)
    requires
        a.wf(),
        a.jobs.contains_key(job_id.0),
        idle(statuses, name),
    ensures
        extends(a, a.attached(job_id, name, task, selection).state, job_id),
        settled(statuses, a, a.attached(job_id, name, task, selection).state, job_id),
{
}

proof fn lemma_with_stages_settled(
    statuses: Map<Seq<char>, RoleStatusModel>,
    job: JobRecordModel,
    names: Seq<Seq<char>>,
    choice: FusionChoice,
    k: nat,
)
    requires
        k <= names.len(),
        forall|i: int| 0 <= i < names.len() ==> idle(statuses, #[trigger] names[i]),
    ensures
        job.with_stages(names, choice, k).definition == job.definition,
        forall|name: Seq<char>| #[trigger]
            job.roles.contains_key(name) && !idle(statuses, name) ==> job.with_stages(
                names,
                choice,
                k,
            ).roles.contains_key(name) && job.with_stages(names, choice, k).roles[name] == job.roles[name],
    decreases k,
{
    if k > 0 {
        lemma_with_stages_settled(statuses, job, names, choice, (k - 1) as nat);
        assert(idle(statuses, names[k - 1]));
    }
}

pub(crate) proof fn lemma_shards_submitted_extends(
    a: FabricModel,
    job_id: JobId,
    name: Seq<char>,
    choices: Seq<ShardChoice>,
    k: int,
)
    requires
        a.wf(),
        a.jobs.contains_key(job_id.0),
        a.jobs[job_id.0].roles.contains_key(name),
    ensures
        extends(a, a.shards_submitted(job_id, name, choices, k).state, job_id),
        a.shards_submitted(job_id, name, choices, k).state.jobs == a.jobs,
    decreases choices.len() - k,
{
    if 0 <= k < choices.len() {
        let one = a.submitted(choices[k].task);
        crate::fabric_model::lemma_wf_submitted(a, choices[k].task);
        if one.answer is Ok {
            let binding = BindingModel::Shard { job_id, role_name: name, index: k as usize };
            crate::fabric_model::lemma_wf_bound(one.state, choices[k].task.id, binding);
            let next = one.state.bound(choices[k].task.id, binding);
            assert(extends(a, next, job_id));
            lemma_shards_submitted_extends(next, job_id, name, choices, k + 1);
            lemma_extends_trans(
                a,
                next,
                next.shards_submitted(job_id, name, choices, k + 1).state,
                job_id,
            );
        }
    }
}

pub(crate) proof fn lemma_reducers_submitted_extends(
    a: FabricModel,
    job_id: JobId,
    name: Seq<char>,
    task: TemplateModel,
    groups: Seq<Seq<ObjectId>>,
    ids: Seq<TaskId>,
    k: int,
)
    requires
        a.wf(),
        a.jobs.contains_key(job_id.0),
        a.jobs[job_id.0].roles.contains_key(name),
    ensures
        extends(a, a.reducers_submitted(job_id, name, task, groups, ids, k).state, job_id),
        a.reducers_submitted(job_id, name, task, groups, ids, k).state.jobs == a.jobs,
    decreases groups.len() - k,
{
    if 0 <= k < groups.len() {
        if groups[k].len() <= 1 {
            lemma_reducers_submitted_extends(a, job_id, name, task, groups, ids, k + 1);
        } else {
            let reducer = task.instantiated(groups[k], ids[k]);
            let one = a.submitted(reducer);
            crate::fabric_model::lemma_wf_submitted(a, reducer);
            if one.answer is Ok {
                let binding = BindingModel::Reducer { job_id, role_name: name, index: k as usize };
                crate::fabric_model::lemma_wf_bound(one.state, ids[k], binding);
                let next = one.state.bound(ids[k], binding);
                assert(extends(a, next, job_id));
                lemma_reducers_submitted_extends(next, job_id, name, task, groups, ids, k + 1);
                lemma_extends_trans(
                    a,
                    next,
                    next.reducers_submitted(job_id, name, task, groups, ids, k + 1).state,
                    job_id,
                );
            }
        }
    }
}

pub(crate) proof fn lemma_materialized_role_extends(
    statuses: Map<Seq<char>, RoleStatusModel>,
    a: FabricModel,
    job_id: JobId,
    ready: ReadyModel,
    now: u64,
    ids: Seq<TaskId>,
)
    requires
        a.wf(),
        crate::fabric_model::placeable(a, job_id, ready),
        claims_idle(statuses, ready),
    ensures
        extends(a, a.materialized_role(job_id, ready, now, ids).state, job_id),
        settled(statuses, a, a.materialized_role(job_id, ready, now, ids).state, job_id),
{
    reveal(FabricModel::materialized_role);
    match ready {
        ReadyModel::Cooperative { name, task, inputs } => {
            lemma_attached_extends(
                statuses,
                a,
                job_id,
                name,
                task.instantiated(inputs, ids[0]),
                None,
            );
        },
        ReadyModel::Logical { role, inputs, chain } => {
            let context = a.context(now);
            if !role.shards.single() {
                if let Some(plan) = crate::shards::role_shards(
                    context,
                    role,
                    inputs,
                    Binary64 { bits: 0 },
                    Map::empty(),
                ) {
                    lemma_shards_submitted_extends(
                        a,
                        job_id,
                        role.name,
                        crate::fabric_model::named_choices(plan.choices, ids),
                        0,
                    );
                }
            } else {
                let fusion = FusionModel {
                    context,
                    advisor: FusionAdvisor { minimum_saved_transfer_ms: Binary64::nearest_to(20) },
                };
                crate::chains::law_fusion_is_sound(fusion, chain, inputs);
                if let Some(choice) = crate::chains::best_fusion(fusion, chain, inputs) {
                    let names = crate::fabric_model::names_of(chain, choice.implementations.len());
                    assert forall|i: int| 0 <= i < names.len() implies idle(
                        statuses,
                        #[trigger] names[i],
                    ) by {
                        assert(names[i] == chain[i].name);
                    }
                    lemma_with_stages_settled(
                        statuses,
                        a.jobs[job_id.0],
                        names,
                        choice.named(ids[0]),
                        names.len(),
                    );
                } else if let Some(choice) = crate::planner::best_implementation(
                    context,
                    role,
                    inputs,
                    role.implementations.len(),
                ) {
                    lemma_attached_extends(
                        statuses,
                        a,
                        job_id,
                        role.name,
                        choice.named(ids[0]).task,
                        Some(
                            RoleSelectionModel {
                                implementation: choice.implementation,
                                planned_resource: choice.resource_id,
                                estimated_total_ms: choice.cost.total_ms,
                                fusion: None,
                            },
                        ),
                    );
                }
            }
        },
        ReadyModel::Reduction { name, reduction, objects } => {
            if reduction.max_fan_in > 0 {
                lemma_reducers_submitted_extends(
                    a,
                    job_id,
                    name,
                    reduction.task,
                    a.next_groups(reduction, objects),
                    ids,
                    0,
                );
            }
        },
    }
}

proof fn lemma_materialized_from_extends(
    statuses: Map<Seq<char>, RoleStatusModel>,
    a: FabricModel,
    job_id: JobId,
    ready: Seq<ReadyModel>,
    i: int,
    now: u64,
    ids: Seq<Seq<TaskId>>,
)
    requires
        a.wf(),
        forall|k: int|
            0 <= k < ready.len() ==> crate::fabric_model::placeable(a, job_id, #[trigger] ready[k])
                && claims_idle(statuses, ready[k]),
    ensures
        a.materialized_from(job_id, ready, i, now, ids).state.wf(),
        extends(a, a.materialized_from(job_id, ready, i, now, ids).state, job_id),
        settled(statuses, a, a.materialized_from(job_id, ready, i, now, ids).state, job_id),
    decreases ready.len() - i,
{
    if 0 <= i < ready.len() {
        let one = a.materialized_role(job_id, ready[i], now, ids[i]);
        crate::fabric_model::lemma_wf_materialized_role(a, job_id, ready[i], now, ids[i]);
        lemma_materialized_role_extends(statuses, a, job_id, ready[i], now, ids[i]);
        if one.answer is Ok {
            assert forall|k: int| 0 <= k < ready.len() implies crate::fabric_model::placeable(
                one.state,
                job_id,
                #[trigger] ready[k],
            ) && claims_idle(statuses, ready[k]) by {
                crate::fabric_model::lemma_placeable_kept(a, one.state, job_id, ready[k]);
            }
            lemma_materialized_from_extends(statuses, one.state, job_id, ready, i + 1, now, ids);
            let last = one.state.materialized_from(job_id, ready, i + 1, now, ids).state;
            lemma_extends_trans(a, one.state, last, job_id);
            lemma_settled_trans(statuses, a, one.state, last, job_id);
        }
    }
}

proof fn lemma_chain_unstarted(
    job: LogicalJobModel,
    statuses: Map<Seq<char>, RoleStatusModel>,
    chain: Seq<LogicalRoleModel>,
    limit: nat,
)
    requires
        chain.len() > 0,
        forall|i: int| 0 <= i < chain.len() ==> unstarted(statuses, (#[trigger] chain[i]).name),
    ensures
        forall|i: int|
            0 <= i < crate::fabric_model::chain_from(job, statuses, chain, limit).len() ==> unstarted(
                statuses,
                (#[trigger] crate::fabric_model::chain_from(job, statuses, chain, limit)[i]).name,
            ),
    decreases limit,
{
    if limit > 0 {
        if let Some(i) = crate::fabric_model::next_in_chain(job, statuses, chain.last()) {
            lemma_chain_unstarted(job, statuses, chain.push(job.roles[i]), (limit - 1) as nat);
        }
    }
}

pub(crate) proof fn lemma_ready_cooperative_unstarted(
    roles: Seq<CooperativeRoleModel>,
    statuses: Map<Seq<char>, RoleStatusModel>,
    i: int,
)
    ensures
        forall|k: int|
            0 <= k < crate::fabric_model::ready_cooperative(roles, statuses, i).len() ==> claims_idle(
                statuses,
                #[trigger] crate::fabric_model::ready_cooperative(roles, statuses, i)[k],
            ),
    decreases roles.len() - i,
{
    if 0 <= i < roles.len() {
        lemma_ready_cooperative_unstarted(roles, statuses, i + 1);
        let all = crate::fabric_model::ready_cooperative(roles, statuses, i);
        let rest = crate::fabric_model::ready_cooperative(roles, statuses, i + 1);
        assert forall|k: int| 0 <= k < all.len() implies claims_idle(statuses, #[trigger] all[k]) by {
            if all.len() > rest.len() {
                if k > 0 {
                    assert(all[k] == rest[k - 1]);
                }
            } else {
                assert(all[k] == rest[k]);
            }
        }
    }
}

pub(crate) proof fn lemma_ready_logical_unstarted(job: LogicalJobModel, statuses: Map<Seq<char>, RoleStatusModel>, i: int)
    ensures
        forall|k: int|
            0 <= k < crate::fabric_model::ready_logical(job, statuses, i).len() ==> claims_idle(
                statuses,
                #[trigger] crate::fabric_model::ready_logical(job, statuses, i)[k],
            ),
    decreases job.roles.len() - i,
{
    if 0 <= i < job.roles.len() {
        lemma_ready_logical_unstarted(job, statuses, i + 1);
        let role = job.roles[i];
        if unstarted(statuses, role.name) {
            lemma_chain_unstarted(job, statuses, seq![role], job.roles.len());
        }
        let all = crate::fabric_model::ready_logical(job, statuses, i);
        let rest = crate::fabric_model::ready_logical(job, statuses, i + 1);
        assert forall|k: int| 0 <= k < all.len() implies claims_idle(statuses, #[trigger] all[k]) by {
            if all.len() > rest.len() {
                if k > 0 {
                    assert(all[k] == rest[k - 1]);
                }
            } else {
                assert(all[k] == rest[k]);
            }
        }
    }
}

/// Turning the ready roles of a job into tasks adds tasks that wait for a resource, and touches no
/// other job; no task, and no role that has started or ended, is changed by it.
pub proof fn law_materialization_only_adds(a: FabricModel, job_id: JobId, now: u64, ids: Seq<Seq<TaskId>>)
    requires
        a.wf(),
    ensures
        a.materialized(job_id, now, ids).state.wf(),
        extends(a, a.materialized(job_id, now, ids).state, job_id),
        settled(a.jobs[job_id.0].roles, a, a.materialized(job_id, now, ids).state, job_id),
{
    if a.jobs.contains_key(job_id.0) {
        let job = a.jobs[job_id.0];
        let ready = crate::fabric_model::ready_roles(job);
        crate::fabric_model::lemma_ready_roles_placeable(a, job_id);
        match job.definition {
            JobModel::Cooperative(spec) => {
                lemma_ready_cooperative_unstarted(spec.roles, job.roles, 0);
            },
            JobModel::Logical(spec) => {
                lemma_ready_logical_unstarted(spec, job.roles, 0);
            },
        }
        lemma_materialized_from_extends(job.roles, a, job_id, ready, 0, now, ids);
    }
}

/// A new incarnation of a resource that has ever registered, whether it has left since or not, has a
/// later epoch than any before it; and no other resource is touched.
pub proof fn law_new_incarnations_have_later_epochs(a: FabricModel, descriptor: ResourceModel, now: u64)
    requires
        a.epochs.contains_key(descriptor.id.0),
        a.next_epoch(descriptor) <= u64::MAX,
    ensures
        a.registered(descriptor, now).resources[descriptor.id.0].descriptor.epoch
            == a.epochs[descriptor.id.0] + 1,
        a.registered(descriptor, now).epochs[descriptor.id.0] == a.epochs[descriptor.id.0] + 1,
        a.membership(descriptor, now).epoch == a.epochs[descriptor.id.0] + 1,
        forall|k: u128|
            k != descriptor.id.0 ==> (#[trigger] a.registered(descriptor, now).resources.contains_key(k)
                <==> a.resources.contains_key(k)) && a.registered(descriptor, now).resources[k]
                == a.resources[k],
{
}

/// The epoch that a member has is the last of its resource.
pub proof fn law_members_have_the_last_epoch(a: FabricModel, resource_id: ResourceId)
    requires
        a.wf(),
        a.resources.contains_key(resource_id.0),
    ensures
        a.epochs.contains_key(resource_id.0),
        a.epochs[resource_id.0] == a.resources[resource_id.0].descriptor.epoch,
{
}

/// A resource that joins, leaves by itself or with others, and joins again gets a later epoch than it
/// had.
pub proof fn law_returning_resources_have_later_epochs(
    a: FabricModel,
    descriptor: ResourceModel,
    joined: u64,
    gone: Seq<u128>,
    returned: ResourceModel,
    again: u64,
)
    requires
        a.next_epoch(descriptor) < u64::MAX,
        returned.id == descriptor.id,
    ensures
        ({
            let b = a.registered(descriptor, joined).without_resources(gone, gone.len());
            b.membership(returned, again).epoch == a.membership(descriptor, joined).epoch + 1
        }),
{
    lemma_departures_keep_epochs(a.registered(descriptor, joined), gone, gone.len());
}

proof fn lemma_departures_keep_epochs(a: FabricModel, gone: Seq<u128>, k: nat)
    ensures
        a.without_resources(gone, k).epochs == a.epochs,
    decreases k,
{
    if k > 0 {
        lemma_departures_keep_epochs(a, gone, (k - 1) as nat);
    }
}

/// No attempt outlives its incarnation: once a resource has registered again, whatever it was running
/// before can neither commit nor renew.
pub proof fn law_attempts_end_with_their_incarnation(
    a: FabricModel,
    task: u128,
    descriptor: ResourceModel,
    joined: u64,
    outputs: Seq<ObjectModel>,
    now: u64,
    ids: Seq<Seq<TaskId>>,
)
    requires
        a.wf(),
        a.next_epoch(descriptor) <= u64::MAX,
        a.tasks.contains_key(task),
        a.tasks[task].status is Running,
        a.tasks[task].status->Running_0.resource_id == descriptor.id,
    ensures
        ({
            let b = a.registered(descriptor, joined);
            let lease = a.tasks[task].status->Running_0;
            &&& b.completed(lease, outputs, now, ids).answer is Err
            &&& b.completed(lease, outputs, now, ids).state == b
            &&& b.renewed(lease, now).answer is Err
            &&& b.renewed(lease, now).state == b
        }),
{
    assert(a.issued(a.tasks[task].status->Running_0));
}

/// What an earlier incarnation of a resource still asks for is refused, and changes nothing, whether
/// the resource has left in between or not.
pub proof fn law_old_incarnations_cannot_act(
    a: FabricModel,
    descriptor: ResourceModel,
    joined: u64,
    lease: ExecutionLease,
    outputs: Seq<ObjectModel>,
    now: u64,
    ids: Seq<Seq<TaskId>>,
)
    requires
        a.epochs.contains_key(descriptor.id.0),
        a.next_epoch(descriptor) <= u64::MAX,
        lease.resource_id == descriptor.id,
        lease.resource_epoch <= a.epochs[descriptor.id.0],
    ensures
        ({
            let b = a.registered(descriptor, joined);
            &&& b.completed(lease, outputs, now, ids).answer is Err
            &&& b.completed(lease, outputs, now, ids).state == b
            &&& b.renewed(lease, now).answer is Err
            &&& b.renewed(lease, now).state == b
            &&& b.heartbeat(descriptor.id, lease.resource_epoch, now).answer == Err::<
                crate::tasks::MembershipLease,
                FabricErrorModel,
            >(FabricErrorModel::StaleResourceEpoch(descriptor.id))
            &&& b.heartbeat(descriptor.id, lease.resource_epoch, now).state == b
        }),
{
}

/// An execution whose lease has expired, by the clock of the fabric, neither commits nor renews.
pub proof fn law_expired_executions_cannot_act(
    a: FabricModel,
    lease: ExecutionLease,
    outputs: Seq<ObjectModel>,
    now: u64,
    ids: Seq<Seq<TaskId>>,
)
    requires
        a.overdue(lease.task_id.0, now),
    ensures
        a.completed(lease, outputs, now, ids).answer is Err,
        a.completed(lease, outputs, now, ids).state == a,
        a.renewed(lease, now).answer is Err,
        a.renewed(lease, now).state == a,
{
}

/// Outputs change the fabric only if the resource is an active member in the incarnation that the
/// lease names, and the task runs as the execution that it names, on that resource, under a lease
/// that has not expired.
pub proof fn law_commits_are_conditional(
    a: FabricModel,
    lease: ExecutionLease,
    outputs: Seq<ObjectModel>,
    now: u64,
    ids: Seq<Seq<TaskId>>,
)
    ensures
        a.completed(lease, outputs, now, ids).answer is Ok || a.completed(lease, outputs, now, ids).state
            != a ==> {
            let held = a.tasks[lease.task_id.0].status->Running_0;
            &&& a.active(lease.resource_id.0, now)
            &&& a.resources[lease.resource_id.0].descriptor.epoch == lease.resource_epoch
            &&& a.tasks.contains_key(lease.task_id.0)
            &&& a.tasks[lease.task_id.0].status is Running
            &&& held.execution_id == lease.execution_id
            &&& held.resource_id == lease.resource_id
            &&& held.resource_epoch == lease.resource_epoch
            &&& held.expires_at_unix_ms > now
        },
{
}

/// The deadline that a worker shows does not matter: the lease that the fabric holds decides.
pub proof fn law_shown_deadlines_do_not_matter(
    a: FabricModel,
    lease: ExecutionLease,
    deadline: u64,
    outputs: Seq<ObjectModel>,
    now: u64,
    ids: Seq<Seq<TaskId>>,
)
    ensures
        ({
            let shown = ExecutionLease { expires_at_unix_ms: deadline, ..lease };
            &&& a.renewed(shown, now) == a.renewed(lease, now)
            &&& a.completed(shown, outputs, now, ids) == a.completed(lease, outputs, now, ids)
        }),
{
}

/// An attempt that has begun may commit until its lease expires, as long as the resource stays a
/// member in the same incarnation.
pub proof fn law_attempts_may_commit_until_expiry(
    a: FabricModel,
    task_id: TaskId,
    resource_id: ResourceId,
    began: u64,
    execution_id: ExecutionId,
    now: u64,
)
    requires
        a.begun(task_id, resource_id, began, execution_id).answer is Ok,
        now < a.begun(task_id, resource_id, began, execution_id).answer->Ok_0.expires_at_unix_ms,
        a.active(resource_id.0, now),
    ensures
        ({
            let outcome = a.begun(task_id, resource_id, began, execution_id);
            outcome.state.lease_error(outcome.answer->Ok_0, now) is None
        }),
{
}

/// A task that runs is not begun again.
pub proof fn law_one_attempt_at_a_time(
    a: FabricModel,
    task_id: TaskId,
    resource_id: ResourceId,
    began: u64,
    execution_id: ExecutionId,
    other: ResourceId,
    later: u64,
    another: ExecutionId,
)
    requires
        a.begun(task_id, resource_id, began, execution_id).answer is Ok,
    ensures
        ({
            let b = a.begun(task_id, resource_id, began, execution_id).state;
            &&& b.begun(task_id, other, later, another).answer is Err
            &&& b.begun(task_id, other, later, another).state == b
        }),
{
}

/// A request that is refused changes nothing.
pub proof fn law_refusals_change_nothing(
    a: FabricModel,
    task: TaskModel,
    object: ObjectModel,
    object_id: ObjectId,
    task_id: TaskId,
    resource_id: ResourceId,
    epoch: u64,
    lease: ExecutionLease,
    execution_id: ExecutionId,
    now: u64,
)
    ensures
        a.heartbeat(resource_id, epoch, now).answer is Err ==> a.heartbeat(resource_id, epoch, now).state == a,
        a.published(object).answer is Err ==> a.published(object).state == a,
        a.located(object_id, resource_id).answer is Err ==> a.located(object_id, resource_id).state == a,
        a.submitted(task).answer is Err ==> a.submitted(task).state == a,
        a.begun(task_id, resource_id, now, execution_id).answer is Err ==> a.begun(
            task_id,
            resource_id,
            now,
            execution_id,
        ).state == a,
        a.renewed(lease, now).answer is Err ==> a.renewed(lease, now).state == a,
{
}

/// Jobs that are refused change nothing.
pub proof fn law_refused_jobs_change_nothing(
    a: FabricModel,
    definition: JobModel,
    now: u64,
    ids: Seq<Seq<TaskId>>,
)
    requires
        crate::fabric_model::job_error(definition, a.objects) is Some || a.jobs.contains_key(
            crate::fabric_model::id_of(definition).0,
        ),
    ensures
        a.enlisted(definition, now, ids).answer is Err,
        a.enlisted(definition, now, ids).state == a,
{
}

/// A filter keeps just what satisfies it.
pub(crate) proof fn lemma_filtered<T>(s: Seq<T>, keep: spec_fn(T) -> bool, item: T)
    ensures
        s.filter(keep).contains(item) <==> s.contains(item) && keep(item),
    decreases s.len(),
{
    reveal(Seq::filter);
    if s.len() > 0 {
        let shorter = s.drop_last();
        lemma_filtered(shorter, keep, item);
        let kept = shorter.filter(keep);
        assert(s =~= shorter.push(s.last()));
        assert(s.contains(item) <==> shorter.contains(item) || item == s.last()) by {
            if shorter.contains(item) {
                let i = choose|i: int| 0 <= i < shorter.len() && shorter[i] == item;
                assert(s[i] == item);
            }
            assert(s[s.len() - 1] == s.last());
        }
        if keep(s.last()) {
            let grown = kept.push(s.last());
            assert(grown.contains(item) <==> kept.contains(item) || item == s.last()) by {
                if kept.contains(item) {
                    let i = choose|i: int| 0 <= i < kept.len() && kept[i] == item;
                    assert(grown[i] == item);
                }
                assert(grown[kept.len() as int] == s.last());
            }
        }
    }
}

/// A resource that leaves takes nothing along but itself: tasks, jobs and other resources stay, its
/// last epoch is remembered, no object loses its identity or another location, and no link leads there
/// any more.
pub proof fn law_departures_are_local(a: FabricModel, resource_id: ResourceId)
    ensures
        ({
            let b = a.without_resource(resource_id);
            &&& !b.resources.contains_key(resource_id.0)
            &&& b.epochs == a.epochs
            &&& b.tasks == a.tasks && b.jobs == a.jobs && b.task_roles == a.task_roles
            &&& forall|k: u128|
                k != resource_id.0 ==> (#[trigger] b.resources.contains_key(k) <==> a.resources.contains_key(k))
                    && b.resources[k] == a.resources[k]
            &&& forall|k: u128| #[trigger]
                a.objects.contains_key(k) ==> b.objects.contains_key(k) && b.objects[k].same_identity(
                    a.objects[k],
                ) && (forall|place: ResourceId| #[trigger]
                    b.objects[k].locations.contains(place) <==> place != resource_id
                        && a.objects[k].locations.contains(place))
            &&& forall|i: int|
                0 <= i < b.links.len() ==> (#[trigger] b.links[i]).from != resource_id && b.links[i].to
                    != resource_id && a.links.contains(b.links[i])
        }),
{
    let b = a.without_resource(resource_id);
    let stays = |link: LinkProfile| link.from != resource_id && link.to != resource_id;
    assert forall|i: int| 0 <= i < b.links.len() implies (#[trigger] b.links[i]).from != resource_id
        && b.links[i].to != resource_id && a.links.contains(b.links[i]) by {
        lemma_filtered(a.links, stays, b.links[i]);
        assert(b.links.contains(b.links[i]));
    }
    assert forall|k: u128| #[trigger] a.objects.contains_key(k) implies b.objects.contains_key(k)
        && b.objects[k].same_identity(a.objects[k]) && (forall|place: ResourceId| #[trigger]
        b.objects[k].locations.contains(place) <==> place != resource_id && a.objects[k].locations.contains(
            place,
        )) by {
        let before = a.objects[k].locations;
        let keep = crate::fabric_model::elsewhere(resource_id);
        assert forall|place: ResourceId| #[trigger] b.objects[k].locations.contains(place) <==> place
            != resource_id && before.contains(place) by {
            lemma_filtered(before, keep, place);
        }
    }
}

/// Recording the outputs of a task with its roles leaves every task, and all that is not a job, as
/// it was but for tasks that are added.
proof fn lemma_role_completed_keeps(
    a: FabricModel,
    task_id: TaskId,
    outputs: Seq<ObjectId>,
    now: u64,
    ids: Seq<Seq<TaskId>>,
)
    requires
        a.wf(),
    ensures
        ({
            let b = a.role_completed(task_id, outputs, now, ids).state;
            &&& b == (FabricModel { tasks: b.tasks, jobs: b.jobs, task_roles: b.task_roles, ..a })
            &&& forall|k: u128| #[trigger]
                a.tasks.contains_key(k) ==> b.tasks.contains_key(k) && b.tasks[k] == a.tasks[k]
        }),
{
    if a.task_roles.contains_key(task_id.0) {
        assert(a.grounded(a.task_roles[task_id.0]));
        match a.task_roles[task_id.0] {
            BindingModel::Single { job_id, role_name } => {
                let job = a.jobs[job_id.0].with_role(role_name, RoleStatusModel::Completed(outputs));
                crate::fabric_model::lemma_wf_with_job(a, job_id, job);
                law_materialization_only_adds(a.with_job(job_id, job), job_id, now, ids);
            },
            BindingModel::Shard { job_id, role_name, index } => {
                let held = a.jobs[job_id.0];
                let job = held.with_role(
                    role_name,
                    crate::fabric_model::after_shard(
                        held.roles[role_name],
                        index,
                        outputs,
                        crate::fabric_model::reduces(held.definition, role_name),
                    ),
                );
                crate::fabric_model::lemma_wf_with_job(a, job_id, job);
                law_materialization_only_adds(a.with_job(job_id, job), job_id, now, ids);
            },
            BindingModel::Reducer { job_id, role_name, index } => {
                let held = a.jobs[job_id.0];
                let job = held.with_role(
                    role_name,
                    crate::fabric_model::after_reducer(held.roles[role_name], index, outputs),
                );
                crate::fabric_model::lemma_wf_with_job(a, job_id, job);
                law_materialization_only_adds(a.with_job(job_id, job), job_id, now, ids);
            },
            BindingModel::FusedChain { job_id, role_names } => {
                let done = RoleStatusModel::Completed(Seq::empty());
                crate::fabric_model::lemma_with_roles(
                    a.jobs[job_id.0],
                    role_names,
                    done,
                    (role_names.len() - 1) as nat,
                );
                let job = a.jobs[job_id.0].with_roles(
                    role_names,
                    done,
                    (role_names.len() - 1) as nat,
                ).with_role(role_names.last(), RoleStatusModel::Completed(outputs));
                crate::fabric_model::lemma_wf_with_job(a, job_id, job);
                law_materialization_only_adds(a.with_job(job_id, job), job_id, now, ids);
            },
        }
    }
}

/// The outputs of a task are the outputs of its role. Of the roles of a fused chain the last has
/// them, and the others end without any.
pub proof fn law_roles_end_with_their_task(
    a: FabricModel,
    task_id: TaskId,
    outputs: Seq<ObjectId>,
    now: u64,
    ids: Seq<Seq<TaskId>>,
)
    requires
        a.wf(),
        a.task_roles.contains_key(task_id.0),
    ensures
        ({
            let b = a.role_completed(task_id, outputs, now, ids).state;
            match a.task_roles[task_id.0] {
                BindingModel::Single { job_id, role_name } => b.jobs[job_id.0].roles[role_name]
                    == RoleStatusModel::Completed(outputs),
                BindingModel::FusedChain { job_id, role_names } => role_names.no_duplicates()
                    ==> forall|i: int|
                    0 <= i < role_names.len() ==> b.jobs[job_id.0].roles[#[trigger] role_names[i]]
                        == RoleStatusModel::Completed(
                        if i == role_names.len() - 1 {
                            outputs
                        } else {
                            Seq::empty()
                        },
                    ),
                _ => true,
            }
        }),
{
    assert(a.grounded(a.task_roles[task_id.0]));
    match a.task_roles[task_id.0] {
        BindingModel::Single { job_id, role_name } => {
            let job = a.jobs[job_id.0].with_role(role_name, RoleStatusModel::Completed(outputs));
            let middle = a.with_job(job_id, job);
            crate::fabric_model::lemma_wf_with_job(a, job_id, job);
            law_materialization_only_adds(middle, job_id, now, ids);
            assert(middle.jobs[job_id.0].roles.contains_key(role_name));
        },
        BindingModel::FusedChain { job_id, role_names } => {
            let done = RoleStatusModel::Completed(Seq::empty());
            let last = (role_names.len() - 1) as nat;
            crate::fabric_model::lemma_with_roles(a.jobs[job_id.0], role_names, done, last);
            crate::fabric_model::lemma_no_missing_stage(a.jobs[job_id.0].roles, role_names, 0);
            let job = a.jobs[job_id.0].with_roles(role_names, done, last).with_role(
                role_names.last(),
                RoleStatusModel::Completed(outputs),
            );
            let middle = a.with_job(job_id, job);
            crate::fabric_model::lemma_wf_with_job(a, job_id, job);
            law_materialization_only_adds(middle, job_id, now, ids);
            let b = a.role_completed(task_id, outputs, now, ids).state;
            if role_names.no_duplicates() {
                assert forall|i: int| 0 <= i < role_names.len() implies b.jobs[job_id.0].roles[
                #[trigger] role_names[i]] == RoleStatusModel::Completed(
                    if i == role_names.len() - 1 {
                        outputs
                    } else {
                        Seq::empty()
                    },
                ) by {
                    assert(a.jobs[job_id.0].roles.contains_key(role_names[i]));
                    if i < last {
                        assert(role_names.take(last as int)[i] == role_names[i]);
                        assert(role_names.take(last as int).contains(role_names[i]));
                    }
                    assert(middle.jobs[job_id.0].roles.contains_key(role_names[i]));
                }
            }
        },
        _ => {},
    }
}

proof fn lemma_stages_recorded(
    job: JobRecordModel,
    names: Seq<Seq<char>>,
    choice: FusionChoice,
    k: nat,
    i: int,
)
    requires
        0 <= i < k <= names.len(),
        names.no_duplicates(),
    ensures
        ({
            let after = job.with_stages(names, choice, k);
            &&& after.roles.contains_key(names[i])
            &&& after.roles[names[i]] == RoleStatusModel::Submitted(choice.task.id)
            &&& after.selections.contains_key(names[i])
            &&& after.selections[names[i]].fusion matches Some(fusion)
            &&& fusion.chain_roles == names
            &&& fusion.stage_index == i as usize
        }),
    decreases k,
{
    if i < k - 1 {
        lemma_stages_recorded(job, names, choice, (k - 1) as nat, i);
        assert(names[i] != names[k - 1]);
    }
}

/// All roles of a fused chain refer to its one task while it runs, each as the stage that it is.
pub proof fn law_fused_roles_share_one_task(
    a: FabricModel,
    job_id: JobId,
    names: Seq<Seq<char>>,
    choice: FusionChoice,
    i: int,
)
    requires
        0 <= i < names.len(),
        names.no_duplicates(),
    ensures
        ({
            let outcome = a.attached_fused(job_id, names, choice);
            outcome.answer is Ok ==> {
                let job = outcome.state.jobs[job_id.0];
                &&& job.roles[names[i]] == RoleStatusModel::Submitted(choice.task.id)
                &&& job.selections[names[i]].fusion matches Some(fusion)
                &&& fusion.chain_roles == names
                &&& fusion.stage_index == i as usize
                &&& outcome.state.task_roles[choice.task.id.0] == BindingModel::FusedChain {
                    job_id,
                    role_names: names,
                }
            }
        }),
{
    lemma_stages_recorded(a.jobs[job_id.0], names, choice, names.len(), i);
}

/// A resource that joins is an opportunity and nothing else: no task, job, object or link is touched,
/// and neither is any other resource.
pub proof fn law_joins_disturb_nothing(a: FabricModel, descriptor: ResourceModel, now: u64)
    ensures
        ({
            let b = a.registered(descriptor, now);
            &&& b.tasks == a.tasks && b.jobs == a.jobs && b.task_roles == a.task_roles
            &&& b.objects == a.objects && b.links == a.links
            &&& b.resources.contains_key(descriptor.id.0)
            &&& forall|k: u128|
                k != descriptor.id.0 ==> (#[trigger] b.resources.contains_key(k) <==> a.resources.contains_key(k))
                    && b.resources[k] == a.resources[k]
        }),
{
}

/// A commit changes the state of its own task only, and that to completed with the outputs.
pub proof fn law_commits_complete_their_task(
    a: FabricModel,
    lease: ExecutionLease,
    outputs: Seq<ObjectModel>,
    now: u64,
    ids: Seq<Seq<TaskId>>,
)
    requires
        a.wf(),
    ensures
        ({
            let outcome = a.completed(lease, outputs, now, ids);
            &&& outcome.answer is Ok ==> outcome.state.tasks.contains_key(lease.task_id.0)
                && outcome.state.tasks[lease.task_id.0].status == TaskStatusModel::Completed(
                crate::fabric_model::ids_of(outputs),
            )
            &&& forall|k: u128| #[trigger]
                a.tasks.contains_key(k) && k != lease.task_id.0 ==> outcome.state.tasks.contains_key(k)
                    && outcome.state.tasks[k] == a.tasks[k]
        }),
{
    if a.lease_error(lease, now) is None && crate::fabric_model::conflict_from(
        a.objects,
        outputs,
        0,
    ) is None {
        let done = TaskStatusModel::Completed(crate::fabric_model::ids_of(outputs));
        let marked = a.with_status(lease.task_id.0, done);
        crate::fabric_model::lemma_wf_tasks(a, marked.tasks);
        crate::fabric_model::lemma_wf_published_from(marked, outputs, 0);
        let stored = marked.published_from(outputs, 0);
        if stored.answer is Ok {
            lemma_role_completed_keeps(
                stored.state,
                lease.task_id,
                crate::fabric_model::ids_of(outputs),
                now,
                ids,
            );
            assert(stored.state.tasks == marked.tasks);
            assert(stored.state.tasks.contains_key(lease.task_id.0));
            let outcome = a.completed(lease, outputs, now, ids);
            assert forall|k: u128| #[trigger]
                a.tasks.contains_key(k) && k != lease.task_id.0 implies outcome.state.tasks.contains_key(k)
                && outcome.state.tasks[k] == a.tasks[k] by {
                assert(stored.state.tasks.contains_key(k));
            }
        }
    }
}

/// A completion that comes again is refused, and changes nothing: as that of a resource that is not
/// active, or of an earlier incarnation, and as stale otherwise.
pub proof fn law_late_duplicates_are_rejected(
    a: FabricModel,
    lease: ExecutionLease,
    outputs: Seq<ObjectModel>,
    now: u64,
    ids: Seq<Seq<TaskId>>,
    again: Seq<ObjectModel>,
    later: u64,
    more: Seq<Seq<TaskId>>,
)
    requires
        a.wf(),
        a.completed(lease, outputs, now, ids).answer is Ok,
    ensures
        ({
            let b = a.completed(lease, outputs, now, ids).state;
            &&& b.completed(lease, again, later, more).answer == Err::<(), FabricErrorModel>(
                if !b.active(lease.resource_id.0, later) {
                    FabricErrorModel::ResourceNotActive(lease.resource_id)
                } else if b.resources[lease.resource_id.0].descriptor.epoch != lease.resource_epoch {
                    FabricErrorModel::StaleResourceEpoch(lease.resource_id)
                } else {
                    FabricErrorModel::StaleExecution
                },
            )
            &&& b.completed(lease, again, later, more).state == b
        }),
{
    law_commits_complete_their_task(a, lease, outputs, now, ids);
}

/// A completed task keeps its outputs, whatever comes after.
pub proof fn law_completed_tasks_stay_completed(
    a: FabricModel,
    k: u128,
    task: TaskModel,
    definition: JobModel,
    object: ObjectModel,
    outputs: Seq<ObjectModel>,
    task_id: TaskId,
    resource_id: ResourceId,
    lease: ExecutionLease,
    execution_id: ExecutionId,
    now: u64,
    ids: Seq<Seq<TaskId>>,
)
    requires
        a.wf(),
        a.tasks.contains_key(k),
        a.tasks[k].status is Completed,
    ensures
        a.submitted(task).state.tasks[k] == a.tasks[k],
        a.enlisted(definition, now, ids).state.tasks[k] == a.tasks[k],
        a.published(object).state.tasks[k] == a.tasks[k],
        a.begun(task_id, resource_id, now, execution_id).state.tasks[k] == a.tasks[k],
        a.renewed(lease, now).state.tasks[k] == a.tasks[k],
        a.completed(lease, outputs, now, ids).state.tasks[k] == a.tasks[k],
        a.reaped(now).tasks[k] == a.tasks[k],
        a.without_resource(resource_id).tasks[k] == a.tasks[k],
{
    law_commits_complete_their_task(a, lease, outputs, now, ids);
    crate::fabric_model::lemma_wf_reaped(a, now);
    let job_id = crate::fabric_model::id_of(definition);
    if crate::fabric_model::job_error(definition, a.objects) is None && !a.jobs.contains_key(job_id.0) {
        crate::fabric_model::lemma_sound_graph(definition, a.objects);
        crate::fabric_model::lemma_wf_new_job(a, definition);
        law_materialization_only_adds(
            a.with_job(job_id, crate::fabric_model::fresh_job(definition)),
            job_id,
            now,
            ids,
        );
    }
}

/// Merging locations keeps those that were there.
pub(crate) proof fn lemma_merged_locations_grow(
    locations: Seq<ResourceId>,
    others: Seq<ResourceId>,
    k: nat,
    place: ResourceId,
)
    requires
        k <= others.len(),
    ensures
        crate::fabric_model::merged_locations(locations, others, k).contains(place)
            <==> locations.contains(place) || others.take(k as int).contains(place),
    decreases k,
{
    if k > 0 {
        lemma_merged_locations_grow(locations, others, (k - 1) as nat, place);
        let before = crate::fabric_model::merged_locations(locations, others, (k - 1) as nat);
        let after = crate::fabric_model::merged_locations(locations, others, k);
        let shorter = others.take(k - 1);
        let longer = others.take(k as int);
        assert(longer =~= shorter.push(others[k - 1]));
        assert(longer.contains(place) <==> shorter.contains(place) || place == others[k - 1]) by {
            if shorter.contains(place) {
                let i = choose|i: int| 0 <= i < shorter.len() && shorter[i] == place;
                assert(longer[i] == place);
            }
            assert(longer[k - 1] == others[k - 1]);
        }
        if !before.contains(others[k - 1]) {
            assert(after.contains(place) <==> before.contains(place) || place == others[k - 1]) by {
                if before.contains(place) {
                    let i = choose|i: int| 0 <= i < before.len() && before[i] == place;
                    assert(after[i] == place);
                }
                assert(after[before.len() as int] == others[k - 1]);
            }
        }
    } else {
        assert(!others.take(0).contains(place));
    }
}

/// The objects of one state are in another, with the same identity and at least the same locations.
pub open spec fn objects_persist(a: Map<u128, ObjectModel>, b: Map<u128, ObjectModel>) -> bool {
    forall|k: u128| #[trigger]
        a.contains_key(k) ==> b.contains_key(k) && b[k].same_identity(a[k]) && forall|place: ResourceId|
            a[k].locations.contains(place) ==> #[trigger] b[k].locations.contains(place)
}

/// Publication is monotonic: an object that is known keeps its identity, and publishing it again
/// adds the locations that are named to those that were.
pub proof fn law_publication_is_monotonic(a: FabricModel, object: ObjectModel)
    ensures
        ({
            let outcome = a.published(object);
            &&& objects_persist(a.objects, outcome.state.objects)
            &&& outcome.answer is Ok ==> {
                let held = outcome.state.objects[object.id.0];
                &&& outcome.state.objects.contains_key(object.id.0)
                &&& held.same_identity(object)
                &&& forall|place: ResourceId| #[trigger]
                    held.locations.contains(place) <==> object.locations.contains(place) || (
                    a.objects.contains_key(object.id.0) && a.objects[object.id.0].locations.contains(
                        place,
                    ))
            }
        }),
{
    let outcome = a.published(object);
    let key = object.id.0;
    if a.objects.contains_key(key) && outcome.answer is Ok {
        let before = a.objects[key];
        assert(object.locations.take(object.locations.len() as int) =~= object.locations);
        assert forall|place: ResourceId| #[trigger]
            outcome.state.objects[key].locations.contains(place) <==> object.locations.contains(place)
            || before.locations.contains(place) by {
            lemma_merged_locations_grow(
                before.locations,
                object.locations,
                object.locations.len(),
                place,
            );
        }
    }
}

/// Announcing a replica adds its location to those of the object.
pub proof fn law_replicas_are_added(a: FabricModel, object_id: ObjectId, resource_id: ResourceId)
    ensures
        objects_persist(a.objects, a.located(object_id, resource_id).state.objects),
        a.located(object_id, resource_id).answer is Ok ==> a.located(
            object_id,
            resource_id,
        ).state.objects[object_id.0].locations.contains(resource_id),
        a.located(object_id, resource_id).answer is Ok <==> a.objects.contains_key(object_id.0),
{
    if a.objects.contains_key(object_id.0) {
        let before = a.objects[object_id.0].locations;
        let others = seq![resource_id];
        assert(others.take(1) =~= others);
        assert(others[0] == resource_id);
        assert forall|place: ResourceId| #[trigger]
            crate::fabric_model::merged_locations(before, others, 1).contains(place)
            <==> before.contains(place) || others.contains(place) by {
            lemma_merged_locations_grow(before, others, 1, place);
        }
    }
}

proof fn lemma_objects_persist_trans(
    a: Map<u128, ObjectModel>,
    b: Map<u128, ObjectModel>,
    c: Map<u128, ObjectModel>,
)
    requires
        objects_persist(a, b),
        objects_persist(b, c),
    ensures
        objects_persist(a, c),
{
    assert forall|k: u128| #[trigger] a.contains_key(k) implies c.contains_key(k) && c[k].same_identity(a[k])
        && (forall|place: ResourceId|
        a[k].locations.contains(place) ==> #[trigger] c[k].locations.contains(place)) by {
        assert(b.contains_key(k));
        assert forall|place: ResourceId| a[k].locations.contains(place) implies #[trigger] c[k].locations.contains(
            place,
        ) by {
            assert(b[k].locations.contains(place));
        }
    }
}

proof fn lemma_published_from_persists(a: FabricModel, objects: Seq<ObjectModel>, i: int)
    ensures
        objects_persist(a.objects, a.published_from(objects, i).state.objects),
    decreases objects.len() - i,
{
    if 0 <= i < objects.len() {
        law_publication_is_monotonic(a, objects[i]);
        let one = a.published(objects[i]);
        if one.answer is Ok {
            lemma_published_from_persists(one.state, objects, i + 1);
            lemma_objects_persist_trans(
                a.objects,
                one.state.objects,
                one.state.published_from(objects, i + 1).state.objects,
            );
        }
    }
}

/// Commits are monotonic too: no published object loses its identity or a location.
pub proof fn law_commits_keep_objects(
    a: FabricModel,
    lease: ExecutionLease,
    outputs: Seq<ObjectModel>,
    now: u64,
    ids: Seq<Seq<TaskId>>,
)
    requires
        a.wf(),
    ensures
        objects_persist(a.objects, a.completed(lease, outputs, now, ids).state.objects),
{
    if a.lease_error(lease, now) is None && crate::fabric_model::conflict_from(
        a.objects,
        outputs,
        0,
    ) is None {
        let done = TaskStatusModel::Completed(crate::fabric_model::ids_of(outputs));
        let marked = a.with_status(lease.task_id.0, done);
        crate::fabric_model::lemma_wf_tasks(a, marked.tasks);
        crate::fabric_model::lemma_wf_published_from(marked, outputs, 0);
        lemma_published_from_persists(marked, outputs, 0);
        let stored = marked.published_from(outputs, 0);
        if stored.answer is Ok {
            lemma_role_completed_keeps(
                stored.state,
                lease.task_id,
                crate::fabric_model::ids_of(outputs),
                now,
                ids,
            );
        }
    }
}

/// Once the lease of an execution has expired, reaping makes a task that may be replayed pending
/// again, and any other uncertain; every other task stays as it is.
pub proof fn law_reaping_respects_effects(a: FabricModel, now: u64, k: u128)
    requires
        a.wf(),
        a.tasks.contains_key(k),
    ensures
        a.reaped(now).tasks.contains_key(k),
        a.reaped(now).tasks[k].spec == a.tasks[k].spec,
        a.reaped(now).tasks[k].status == if !a.overdue(k, now) {
            a.tasks[k].status
        } else if a.tasks[k].spec.effects.replayable() {
            TaskStatusModel::Pending
        } else {
            TaskStatusModel::Uncertain
        },
{
    crate::fabric_model::lemma_wf_reaped(a, now);
}

/// The roles that a binding names.
pub open spec fn bound_roles(binding: BindingModel) -> (JobId, Seq<Seq<char>>) {
    match binding {
        BindingModel::Single { job_id, role_name } => (job_id, seq![role_name]),
        BindingModel::Shard { job_id, role_name, .. } => (job_id, seq![role_name]),
        BindingModel::Reducer { job_id, role_name, .. } => (job_id, seq![role_name]),
        BindingModel::FusedChain { job_id, role_names } => (job_id, role_names),
    }
}

proof fn lemma_role_lost(a: FabricModel, task: u128)
    requires
        a.wf(),
        a.task_roles.contains_key(task),
    ensures
        ({
            let (job_id, names) = bound_roles(a.task_roles[task]);
            &&& names.len() > 0
            &&& a.jobs.contains_key(job_id.0)
            &&& a.role_lost(task).jobs.contains_key(job_id.0)
            &&& forall|i: int|
                0 <= i < names.len() ==> a.role_lost(task).jobs[job_id.0].roles.contains_key(
                    #[trigger] names[i],
                ) && a.role_lost(task).jobs[job_id.0].roles[names[i]] == RoleStatusModel::Uncertain
        }),
        forall|j: u128, name: Seq<char>|
            a.jobs.contains_key(j) && a.jobs[j].roles.contains_key(name) && a.jobs[j].roles[name]
                is Uncertain ==> a.role_lost(task).jobs.contains_key(j) && a.role_lost(
                task,
            ).jobs[j].roles.contains_key(name) && #[trigger] a.role_lost(task).jobs[j].roles[name]
                is Uncertain,
{
    let (job_id, names) = bound_roles(a.task_roles[task]);
    assert(a.grounded(a.task_roles[task]));
    crate::fabric_model::lemma_with_roles(
        a.jobs[job_id.0],
        names,
        RoleStatusModel::Uncertain,
        names.len(),
    );
    assert(names.take(names.len() as int) =~= names);
    let after = a.jobs[job_id.0].with_roles(names, RoleStatusModel::Uncertain, names.len());
    assert(a.role_lost(task) == a.with_job(job_id, after));
    assert forall|i: int| 0 <= i < names.len() implies after.roles.contains_key(#[trigger] names[i])
        && after.roles[names[i]] == RoleStatusModel::Uncertain by {
        assert(a.jobs[job_id.0].roles.contains_key(names[i]));
        assert(after.roles.dom().contains(names[i]));
    }
    assert forall|name: Seq<char>| a.jobs[job_id.0].roles.contains_key(name) && a.jobs[job_id.0].roles[name]
        is Uncertain implies after.roles.contains_key(name) && #[trigger] after.roles[name] is Uncertain by {
        assert(after.roles.dom().contains(name));
    }
}

/// Roles that are uncertain stay so while others are lost.
proof fn lemma_uncertain_stays(a: FabricModel, tasks: Seq<u128>, k: nat, n: nat, j: u128, name: Seq<char>)
    requires
        a.wf(),
        k <= n <= tasks.len(),
        a.all_lost(tasks, k).jobs.contains_key(j),
        a.all_lost(tasks, k).jobs[j].roles.contains_key(name),
        a.all_lost(tasks, k).jobs[j].roles[name] is Uncertain,
    ensures
        a.all_lost(tasks, n).jobs.contains_key(j),
        a.all_lost(tasks, n).jobs[j].roles.contains_key(name),
        a.all_lost(tasks, n).jobs[j].roles[name] is Uncertain,
    decreases n - k,
{
    if k < n {
        lemma_uncertain_stays(a, tasks, k, (n - 1) as nat, j, name);
        let before = a.all_lost(tasks, (n - 1) as nat);
        crate::fabric_model::lemma_wf_all_lost(a, tasks, (n - 1) as nat);
        if before.task_roles.contains_key(tasks[n - 1]) {
            lemma_role_lost(before, tasks[n - 1]);
            assert(before.role_lost(tasks[n - 1]).jobs[j].roles[name] is Uncertain);
        }
    }
}

/// When the execution of a task that may not be replayed is lost, the roles whose work it does, and
/// with them their job, become uncertain.
pub proof fn law_lost_effects_make_jobs_uncertain(a: FabricModel, now: u64, task: u128)
    requires
        a.wf(),
        a.tasks.contains_key(task),
        a.overdue(task, now),
        !a.tasks[task].spec.effects.replayable(),
        a.task_roles.contains_key(task),
    ensures
        ({
            let (job_id, names) = bound_roles(a.task_roles[task]);
            let job = a.reaped(now).jobs[job_id.0];
            &&& a.reaped(now).jobs.contains_key(job_id.0)
            &&& job.status() == JobStatusModel::Uncertain
            &&& forall|i: int|
                0 <= i < names.len() ==> job.roles.contains_key(#[trigger] names[i]) && job.roles[names[i]]
                    == RoleStatusModel::Uncertain
        }),
{
    let (job_id, names) = bound_roles(a.task_roles[task]);
    let lost = a.lost_keys(now);
    let keep = |k: u128| a.overdue(k, now) && !a.tasks[k].spec.effects.replayable();
    let all = crate::collections::sorted(a.tasks.dom());
    let b = a.tasks_reaped(now);
    crate::fabric_model::lemma_wf_reaped(a, now);
    lemma_filtered(all, keep, task);
    crate::collections::lemma_sorted(a.tasks.dom());
    assert(a.tasks.dom().contains(task));
    let at = choose|i: int| 0 <= i < lost.len() && lost[i] == task;
    let before = b.all_lost(lost, at as nat);
    crate::fabric_model::lemma_wf_all_lost(b, lost, at as nat);
    lemma_role_lost(before, task);
    assert(b.all_lost(lost, (at + 1) as nat) == before.role_lost(task));
    let job = a.reaped(now).jobs[job_id.0];
    assert forall|i: int| 0 <= i < names.len() implies job.roles.contains_key(#[trigger] names[i])
        && job.roles[names[i]] == RoleStatusModel::Uncertain by {
        lemma_uncertain_stays(b, lost, (at + 1) as nat, lost.len(), job_id.0, names[i]);
    }
    assert(job.roles.contains_key(names[0]) && job.roles[names[0]] is Uncertain);
    lemma_uncertain_stays(b, lost, (at + 1) as nat, lost.len(), job_id.0, names[0]);
}

/// A link at the end is found where no earlier one joins the two resources.
pub(crate) proof fn lemma_link_from_pushed(links: Seq<LinkProfile>, link: LinkProfile, i: int, x: ResourceId, y: ResourceId)
    requires
        0 <= i <= links.len(),
    ensures
        crate::topology::link_from(links.push(link), i, x, y) == match crate::topology::link_from(
            links,
            i,
            x,
            y,
        ) {
            Some(found) => Some(found),
            None => if link.joins(x, y) {
                Some(link)
            } else {
                None
            },
        },
    decreases links.len() - i,
{
    if i < links.len() {
        lemma_link_from_pushed(links, link, i + 1, x, y);
    } else {
        assert(crate::topology::link_from(links.push(link), i + 1, x, y) is None);
    }
}

/// Removing the links of a pair leaves nothing between it, and everything between any other pair.
proof fn lemma_cleared_links(
    links: Seq<LinkProfile>,
    from: ResourceId,
    to: ResourceId,
    x: ResourceId,
    y: ResourceId,
)
    ensures
        crate::topology::link_between(
            links.filter(|link: LinkProfile| !link.joins(from, to)),
            x,
            y,
        ) == if (x == from && y == to) || (x == to && y == from) {
            None
        } else {
            crate::topology::link_between(links, x, y)
        },
    decreases links.len(),
{
    reveal(Seq::filter);
    let keep = |link: LinkProfile| !link.joins(from, to);
    if links.len() > 0 {
        let shorter = links.drop_last();
        lemma_cleared_links(shorter, from, to, x, y);
        assert(links =~= shorter.push(links.last()));
        lemma_link_from_pushed(shorter, links.last(), 0, x, y);
        if keep(links.last()) {
            lemma_link_from_pushed(shorter.filter(keep), links.last(), 0, x, y);
        }
    }
}

/// A link that is set is the one between its two ends from then on, either way round; a link that is
/// removed leaves none there. Between any other two resources nothing changes.
pub proof fn law_links_are_replaced(a: FabricModel, link: LinkProfile, x: ResourceId, y: ResourceId)
    ensures
        crate::topology::link_between(a.with_link(link).links, x, y) == if link.joins(x, y) {
            Some(link)
        } else {
            crate::topology::link_between(a.links, x, y)
        },
        crate::topology::link_between(a.without_link(link.from, link.to).links, x, y) == if link.joins(
            x,
            y,
        ) {
            None
        } else {
            crate::topology::link_between(a.links, x, y)
        },
{
    lemma_cleared_links(a.links, link.from, link.to, x, y);
    lemma_link_from_pushed(a.without_link(link.from, link.to).links, link, 0, x, y);
}

/// What is gathered from shards where one has not put anything out.
proof fn lemma_not_gathered(shards: Seq<ShardStatusModel>, k: nat, i: int)
    requires
        0 <= i < k <= shards.len(),
        shards[i].outputs is None,
    ensures
        crate::fabric_model::gathered(shards, k) is None,
    decreases k,
{
    if i < k - 1 {
        lemma_not_gathered(shards, (k - 1) as nat, i);
    }
}

/// The outputs of a sharded role do not depend on the order in which its shards end.
pub proof fn law_fan_in_ignores_completion_order(
    shards: Seq<ShardStatusModel>,
    i: usize,
    first: Seq<ObjectId>,
    j: usize,
    second: Seq<ObjectId>,
    reduces: bool,
)
    requires
        i < shards.len(),
        j < shards.len(),
        i != j,
        shards[i as int].outputs is None,
        shards[j as int].outputs is None,
    ensures
        ({
            let status = RoleStatusModel::Sharded(shards);
            crate::fabric_model::after_shard(
                crate::fabric_model::after_shard(status, i, first, reduces),
                j,
                second,
                reduces,
            ) == crate::fabric_model::after_shard(
                crate::fabric_model::after_shard(status, j, second, reduces),
                i,
                first,
                reduces,
            )
        }),
{
    let one = shards.update(
        i as int,
        ShardStatusModel { task_id: shards[i as int].task_id, outputs: Some(first) },
    );
    let other = shards.update(
        j as int,
        ShardStatusModel { task_id: shards[j as int].task_id, outputs: Some(second) },
    );
    lemma_not_gathered(one, one.len(), j as int);
    lemma_not_gathered(other, other.len(), i as int);
    assert(one.update(
        j as int,
        ShardStatusModel { task_id: one[j as int].task_id, outputs: Some(second) },
    ) =~= other.update(
        i as int,
        ShardStatusModel { task_id: other[i as int].task_id, outputs: Some(first) },
    ));
}

/// The outputs of shards, one after the other.
pub open spec fn joined(shards: Seq<ShardStatusModel>, k: nat) -> Seq<ObjectId>
    decreases k,
{
    if k == 0 {
        Seq::empty()
    } else {
        joined(shards, (k - 1) as nat) + shards[k - 1].outputs.unwrap()
    }
}

proof fn lemma_gathered(shards: Seq<ShardStatusModel>, k: nat)
    requires
        k <= shards.len(),
        forall|i: int| 0 <= i < k ==> (#[trigger] shards[i]).outputs is Some,
    ensures
        crate::fabric_model::gathered(shards, k) == Some(joined(shards, k)),
    decreases k,
{
    if k > 0 {
        lemma_gathered(shards, (k - 1) as nat);
        assert(shards[k - 1].outputs is Some);
    }
}

/// The contributions to a sharded role are there as soon as all of its shards are complete, and not
/// before; they are those of the shards in the order of their indexes.
pub proof fn law_fan_in_keeps_shard_order(
    shards: Seq<ShardStatusModel>,
    index: usize,
    outputs: Seq<ObjectId>,
    reduces: bool,
)
    requires
        index < shards.len(),
    ensures
        ({
            let next = shards.update(
                index as int,
                ShardStatusModel { task_id: shards[index as int].task_id, outputs: Some(outputs) },
            );
            crate::fabric_model::after_shard(
                RoleStatusModel::Sharded(shards),
                index,
                outputs,
                reduces,
            ) == if forall|
                i: int,
            |
                0 <= i < next.len() ==> (#[trigger] next[i]).outputs is Some {
                crate::fabric_model::contributed(reduces, joined(next, next.len()))
            } else {
                RoleStatusModel::Sharded(next)
            }
        }),
{
    let next = shards.update(
        index as int,
        ShardStatusModel { task_id: shards[index as int].task_id, outputs: Some(outputs) },
    );
    if forall|i: int| 0 <= i < next.len() ==> (#[trigger] next[i]).outputs is Some {
        lemma_gathered(next, next.len());
    } else {
        let i = choose|i: int| 0 <= i < next.len() && !((#[trigger] next[i]).outputs is Some);
        lemma_not_gathered(next, next.len(), i);
    }
}

/// The status of a role whose shards end one after the other, in a given order, after the first `k`.
pub open spec fn after_shards(
    shards: Seq<ShardStatusModel>,
    order: Seq<usize>,
    outputs: Seq<Seq<ObjectId>>,
    reduces: bool,
    k: nat,
) -> RoleStatusModel
    decreases k,
{
    if k == 0 {
        RoleStatusModel::Sharded(shards)
    } else {
        crate::fabric_model::after_shard(
            after_shards(shards, order, outputs, reduces, (k - 1) as nat),
            order[k - 1],
            outputs[order[k - 1] as int],
            reduces,
        )
    }
}

/// An order in which `n` shards can end: each of them comes once.
pub open spec fn is_order(order: Seq<usize>, n: nat) -> bool {
    &&& order.len() == n
    &&& order.no_duplicates()
    &&& forall|j: int| 0 <= j < order.len() ==> (#[trigger] order[j]) < n
}

/// Shards of which those that come first in an order have put something out, and no others.
pub open spec fn filled(
    shards: Seq<ShardStatusModel>,
    order: Seq<usize>,
    outputs: Seq<Seq<ObjectId>>,
    k: nat,
) -> Seq<ShardStatusModel> {
    Seq::new(
        shards.len(),
        |i: int|
            ShardStatusModel {
                task_id: shards[i].task_id,
                outputs: if exists|j: int| 0 <= j < k && #[trigger] order[j] == i {
                    Some(outputs[i])
                } else {
                    None
                },
            },
    )
}

proof fn lemma_orders_are_complete(order: Seq<usize>, n: nat, i: int)
    requires
        is_order(order, n),
        0 <= i < n,
    ensures
        exists|j: int| 0 <= j < n && #[trigger] order[j] == i,
{
    let indexes = Seq::new(n, |j: int| order[j] as int);
    indexes.unique_seq_to_set();
    vstd::set_lib::lemma_int_range(0, n as int);
    vstd::seq_lib::seq_to_set_is_finite(indexes);
    assert forall|x: int| indexes.to_set().contains(x) implies vstd::set_lib::set_int_range(
        0,
        n as int,
    ).contains(x) by {
        let j = choose|j: int| 0 <= j < indexes.len() && indexes[j] == x;
        assert(order[j] < n);
    }
    vstd::set_lib::lemma_subset_equality(
        indexes.to_set(),
        vstd::set_lib::set_int_range(0, n as int),
    );
    assert(vstd::set_lib::set_int_range(0, n as int).contains(i));
    assert(indexes.to_set().contains(i));
    let j = choose|j: int| 0 <= j < indexes.len() && indexes[j] == i;
    assert(order[j] == i);
}

proof fn lemma_joined_outputs(shards: Seq<ShardStatusModel>, outputs: Seq<Seq<ObjectId>>, k: nat)
    requires
        k <= shards.len(),
        forall|i: int| 0 <= i < k ==> (#[trigger] shards[i]).outputs == Some(outputs[i]),
    ensures
        joined(shards, k) == chained(outputs, k),
    decreases k,
{
    if k > 0 {
        lemma_joined_outputs(shards, outputs, (k - 1) as nat);
        assert(shards[k - 1].outputs == Some(outputs[k - 1]));
    }
}

/// Whatever the order in which the shards of a role end, the role waits for all of them, and then has
/// their outputs in the order of their indexes.
pub proof fn law_all_shards_make_the_role(
    shards: Seq<ShardStatusModel>,
    order: Seq<usize>,
    outputs: Seq<Seq<ObjectId>>,
    reduces: bool,
    k: nat,
)
    requires
        is_order(order, shards.len()),
        shards.len() > 0,
        k <= shards.len(),
        forall|i: int| 0 <= i < shards.len() ==> (#[trigger] shards[i]).outputs is None,
    ensures
        after_shards(shards, order, outputs, reduces, k) == if k < shards.len() {
            RoleStatusModel::Sharded(filled(shards, order, outputs, k))
        } else {
            crate::fabric_model::contributed(reduces, chained(outputs, shards.len()))
        },
    decreases k,
{
    let here = filled(shards, order, outputs, k);
    if k == 0 {
        assert(here =~= shards);
    } else {
        law_all_shards_make_the_role(shards, order, outputs, reduces, (k - 1) as nat);
        let before = filled(shards, order, outputs, (k - 1) as nat);
        let last = order[k - 1];
        let next = before.update(
            last as int,
            ShardStatusModel {
                task_id: before[last as int].task_id,
                outputs: Some(outputs[last as int]),
            },
        );
        assert forall|i: int| 0 <= i < shards.len() implies here[i] == #[trigger] next[i] by {
            if i != last && (exists|j: int| 0 <= j < k && #[trigger] order[j] == i) {
                let j = choose|j: int| 0 <= j < k && #[trigger] order[j] == i;
                assert(0 <= j < k - 1 && order[j] == i);
            }
            if exists|j: int| 0 <= j < k - 1 && #[trigger] order[j] == i {
                let j = choose|j: int| 0 <= j < k - 1 && #[trigger] order[j] == i;
                assert(0 <= j < k && order[j] == i);
            }
        }
        assert(here =~= next);
        if k < shards.len() {
            let missing = order[k as int];
            assert(here[missing as int].outputs is None);
            lemma_not_gathered(here, here.len(), missing as int);
        } else {
            assert forall|i: int| 0 <= i < here.len() implies (#[trigger] here[i]).outputs == Some(
                outputs[i],
            ) by {
                lemma_orders_are_complete(order, shards.len(), i);
            }
            lemma_gathered(here, here.len());
            lemma_joined_outputs(here, outputs, here.len());
        }
    }
}

/// The fabric after the tasks of the first `k` shards of a role have ended, in a given order.
pub open spec fn after_shard_tasks(
    a: FabricModel,
    shards: Seq<ShardStatusModel>,
    order: Seq<usize>,
    outputs: Seq<Seq<ObjectId>>,
    now: Seq<u64>,
    ids: Seq<Seq<Seq<TaskId>>>,
    k: nat,
) -> FabricModel
    decreases k,
{
    if k == 0 {
        a
    } else {
        after_shard_tasks(a, shards, order, outputs, now, ids, (k - 1) as nat).role_completed(
            shards[order[k - 1] as int].task_id,
            outputs[order[k - 1] as int],
            now[k - 1],
            ids[k - 1],
        ).state
    }
}

/// The tasks of the shards of a role are bound to it by their indexes.
pub open spec fn shards_bound(
    a: FabricModel,
    job_id: JobId,
    name: Seq<char>,
    shards: Seq<ShardStatusModel>,
) -> bool {
    forall|i: int|
        0 <= i < shards.len() ==> a.task_roles.contains_key((#[trigger] shards[i]).task_id.0)
            && a.task_roles[shards[i].task_id.0] == (BindingModel::Shard {
            job_id,
            role_name: name,
            index: i as usize,
        })
}

/// A sharded role is not complete before the tasks of all its shards are, whatever the order in which
/// they end. Then it has their outputs, in the order of the shards, and is complete unless several
/// outputs are left to reduce.
pub proof fn law_sharded_roles_end_with_their_tasks(
    a: FabricModel,
    job_id: JobId,
    name: Seq<char>,
    shards: Seq<ShardStatusModel>,
    order: Seq<usize>,
    outputs: Seq<Seq<ObjectId>>,
    now: Seq<u64>,
    ids: Seq<Seq<Seq<TaskId>>>,
    k: nat,
)
    requires
        a.wf(),
        a.jobs.contains_key(job_id.0),
        a.jobs[job_id.0].roles.contains_key(name),
        a.jobs[job_id.0].roles[name] == RoleStatusModel::Sharded(shards),
        shards_bound(a, job_id, name, shards),
        is_order(order, shards.len()),
        0 < shards.len() <= usize::MAX,
        k <= shards.len(),
        forall|i: int| 0 <= i < shards.len() ==> (#[trigger] shards[i]).outputs is None,
    ensures
        ({
            let b = after_shard_tasks(a, shards, order, outputs, now, ids, k);
            let all = chained(outputs, shards.len());
            let reduces = crate::fabric_model::reduces(a.jobs[job_id.0].definition, name);
            &&& b.wf()
            &&& b.jobs.contains_key(job_id.0)
            &&& b.jobs[job_id.0].definition == a.jobs[job_id.0].definition
            &&& b.jobs[job_id.0].roles.contains_key(name)
            &&& shards_bound(b, job_id, name, shards)
            &&& k < shards.len() ==> b.jobs[job_id.0].roles[name] == RoleStatusModel::Sharded(
                filled(shards, order, outputs, k),
            )
            &&& k == shards.len() && !(reduces && all.len() > 1) ==> b.jobs[job_id.0].roles[name]
                == RoleStatusModel::Completed(all)
        }),
    decreases k,
{
    if k == 0 {
        assert(filled(shards, order, outputs, 0) =~= shards);
    } else {
        law_sharded_roles_end_with_their_tasks(
            a,
            job_id,
            name,
            shards,
            order,
            outputs,
            now,
            ids,
            (k - 1) as nat,
        );
        let before = after_shard_tasks(a, shards, order, outputs, now, ids, (k - 1) as nat);
        let reduces = crate::fabric_model::reduces(a.jobs[job_id.0].definition, name);
        let index = order[k - 1];
        law_all_shards_make_the_role(shards, order, outputs, reduces, (k - 1) as nat);
        law_all_shards_make_the_role(shards, order, outputs, reduces, k);
        assert(before.task_roles[shards[index as int].task_id.0] == (BindingModel::Shard {
            job_id,
            role_name: name,
            index,
        }));
        let status = after_shards(shards, order, outputs, reduces, k);
        let job = before.jobs[job_id.0].with_role(name, status);
        let middle = before.with_job(job_id, job);
        crate::fabric_model::lemma_wf_with_job(before, job_id, job);
        law_materialization_only_adds(middle, job_id, now[k - 1], ids[k - 1]);
        let b = after_shard_tasks(a, shards, order, outputs, now, ids, k);
        assert(b == middle.materialized(job_id, now[k - 1], ids[k - 1]).state);
        assert(middle.jobs.contains_key(job_id.0));
        assert(middle.jobs[job_id.0].roles.contains_key(name));
        assert forall|i: int| 0 <= i < shards.len() implies b.task_roles.contains_key(
            (#[trigger] shards[i]).task_id.0,
        ) && b.task_roles[shards[i].task_id.0] == (BindingModel::Shard {
            job_id,
            role_name: name,
            index: i as usize,
        }) by {
            assert(middle.task_roles.contains_key(shards[i].task_id.0));
        }
    }
}

/// What the end of a task has to do with the role whose shard it is: the outputs are recorded under
/// the index of the shard. As long as one shard has none the role goes on; then it has the outputs of
/// all, in the order of their indexes, and is complete unless several of them are left to reduce.
pub open spec fn shard_recorded(a: FabricModel, b: FabricModel, task_id: TaskId, outputs: Seq<ObjectId>) -> bool {
    a.task_roles.contains_key(task_id.0) ==> (a.task_roles[task_id.0] matches BindingModel::Shard {
        job_id,
        role_name,
        index,
    } ==> (a.jobs[job_id.0].roles[role_name] matches RoleStatusModel::Sharded(shards) ==> (index < shards.len()
        ==> {
        let next = shards.update(
            index as int,
            ShardStatusModel { task_id: shards[index as int].task_id, outputs: Some(outputs) },
        );
        let all = joined(next, next.len());
        &&& b.jobs.contains_key(job_id.0)
        &&& b.jobs[job_id.0].roles.contains_key(role_name)
        &&& (exists|i: int| 0 <= i < next.len() && (#[trigger] next[i]).outputs is None)
            ==> b.jobs[job_id.0].roles[role_name] == RoleStatusModel::Sharded(next)
        &&& (forall|i: int| 0 <= i < next.len() ==> (#[trigger] next[i]).outputs is Some) && !(
        crate::fabric_model::reduces(a.jobs[job_id.0].definition, role_name) && all.len() > 1)
            ==> b.jobs[job_id.0].roles[role_name] == RoleStatusModel::Completed(all)
    })))
}

/// The end of a task is recorded with the role whose shard it is.
pub proof fn law_shards_are_recorded(
    a: FabricModel,
    task_id: TaskId,
    outputs: Seq<ObjectId>,
    now: u64,
    ids: Seq<Seq<TaskId>>,
)
    requires
        a.wf(),
    ensures
        shard_recorded(a, a.role_completed(task_id, outputs, now, ids).state, task_id, outputs),
{
    if a.task_roles.contains_key(task_id.0) {
        assert(a.grounded(a.task_roles[task_id.0]));
        if let BindingModel::Shard { job_id, role_name, index } = a.task_roles[task_id.0] {
            let held = a.jobs[job_id.0];
            let reduces = crate::fabric_model::reduces(held.definition, role_name);
            let job = held.with_role(
                role_name,
                crate::fabric_model::after_shard(held.roles[role_name], index, outputs, reduces),
            );
            let middle = a.with_job(job_id, job);
            crate::fabric_model::lemma_wf_with_job(a, job_id, job);
            law_materialization_only_adds(middle, job_id, now, ids);
            let b = a.role_completed(task_id, outputs, now, ids).state;
            assert(b == middle.materialized(job_id, now, ids).state);
            assert(middle.jobs.contains_key(job_id.0));
            assert(middle.jobs[job_id.0].roles.contains_key(role_name));
            assert(middle.task_roles.contains_key(task_id.0));
            assert(b.grounded(b.task_roles[task_id.0]));
            if let RoleStatusModel::Sharded(shards) = held.roles[role_name] {
                if index < shards.len() {
                    law_fan_in_keeps_shard_order(shards, index, outputs, reduces);
                }
            }
        }
    }
}

/// A commit is recorded with the role whose shard its task is.
pub proof fn law_committed_shards_are_recorded(
    a: FabricModel,
    lease: ExecutionLease,
    outputs: Seq<ObjectModel>,
    now: u64,
    ids: Seq<Seq<TaskId>>,
)
    requires
        a.wf(),
        a.completed(lease, outputs, now, ids).answer is Ok,
    ensures
        shard_recorded(
            a,
            a.completed(lease, outputs, now, ids).state,
            lease.task_id,
            crate::fabric_model::ids_of(outputs),
        ),
{
    let done = TaskStatusModel::Completed(crate::fabric_model::ids_of(outputs));
    let marked = a.with_status(lease.task_id.0, done);
    crate::fabric_model::lemma_wf_tasks(a, marked.tasks);
    crate::fabric_model::lemma_wf_published_from(marked, outputs, 0);
    let stored = marked.published_from(outputs, 0).state;
    law_shards_are_recorded(
        stored,
        lease.task_id,
        crate::fabric_model::ids_of(outputs),
        now,
        ids,
    );
}

/// The tasks of the shards of a role are committed in a given order: the commit at position `j` takes
/// the fabric from `before[j]` to `after[j]`. Between two commits anything may happen that leaves the
/// state of the role and the bindings of its tasks alone.
pub open spec fn shards_committed(
    before: Seq<FabricModel>,
    after: Seq<FabricModel>,
    job_id: JobId,
    name: Seq<char>,
    shards: Seq<ShardStatusModel>,
    order: Seq<usize>,
    outputs: Seq<Seq<ObjectModel>>,
) -> bool {
    &&& before.len() == shards.len()
    &&& after.len() == shards.len()
    &&& is_order(order, shards.len())
    &&& 0 < shards.len() <= usize::MAX
    &&& before[0].jobs[job_id.0].roles[name] == RoleStatusModel::Sharded(shards)
    &&& forall|i: int| 0 <= i < shards.len() ==> (#[trigger] shards[i]).outputs is None
    &&& forall|j: int|
        0 <= j < before.len() ==> {
            &&& (#[trigger] before[j]).wf()
            &&& before[j].jobs.contains_key(job_id.0)
            &&& before[j].jobs[job_id.0].definition == before[0].jobs[job_id.0].definition
            &&& shards_bound(before[j], job_id, name, shards)
            &&& 0 < j ==> before[j].jobs[job_id.0].roles[name] == after[j - 1].jobs[job_id.0].roles[name]
            &&& committed(before[j], after[j], shards[order[j] as int].task_id, outputs[order[j] as int])
        }
}

/// A commit of a task leads from one state to another.
pub open spec fn committed(
    a: FabricModel,
    b: FabricModel,
    task_id: TaskId,
    outputs: Seq<ObjectModel>,
) -> bool {
    exists|lease: ExecutionLease, now: u64, ids: Seq<Seq<TaskId>>|
        {
            let outcome = #[trigger] a.completed(lease, outputs, now, ids);
            lease.task_id == task_id && outcome.answer is Ok && b == outcome.state
        }
}

/// The identities of what the shards put out.
pub open spec fn ids_by_shard(outputs: Seq<Seq<ObjectModel>>) -> Seq<Seq<ObjectId>> {
    Seq::new(outputs.len(), |i: int| crate::fabric_model::ids_of(outputs[i]))
}

/// A sharded role is not complete before the task of every shard is committed, whatever the order of
/// the commits. Then it has their outputs, in the order of the shards, and is complete unless several
/// outputs are left to reduce.
pub proof fn law_sharded_roles_end_with_their_commits(
    before: Seq<FabricModel>,
    after: Seq<FabricModel>,
    job_id: JobId,
    name: Seq<char>,
    shards: Seq<ShardStatusModel>,
    order: Seq<usize>,
    outputs: Seq<Seq<ObjectModel>>,
    k: int,
)
    requires
        shards_committed(before, after, job_id, name, shards, order, outputs),
        outputs.len() == shards.len(),
        0 <= k < shards.len(),
    ensures
        ({
            let b = after[k];
            let all = chained(ids_by_shard(outputs), shards.len());
            let reduces = crate::fabric_model::reduces(before[0].jobs[job_id.0].definition, name);
            &&& k < shards.len() - 1 ==> b.jobs[job_id.0].roles[name] == RoleStatusModel::Sharded(
                filled(shards, order, ids_by_shard(outputs), (k + 1) as nat),
            )
            &&& k == shards.len() - 1 && !(reduces && all.len() > 1) ==> b.jobs[job_id.0].roles[name]
                == RoleStatusModel::Completed(all)
        }),
    decreases k,
{
    let made = ids_by_shard(outputs);
    let reduces = crate::fabric_model::reduces(before[0].jobs[job_id.0].definition, name);
    let a = before[k];
    let index = order[k];
    let task_id = shards[index as int].task_id;
    assert(a.wf());
    if k == 0 {
        assert(filled(shards, order, made, 0) =~= shards);
    } else {
        law_sharded_roles_end_with_their_commits(
            before,
            after,
            job_id,
            name,
            shards,
            order,
            outputs,
            k - 1,
        );
    }
    let held = filled(shards, order, made, k as nat);
    assert(a.jobs[job_id.0].roles[name] == RoleStatusModel::Sharded(held));
    assert(committed(a, after[k], task_id, outputs[index as int]));
    let (lease, now, ids) = choose|lease: ExecutionLease, now: u64, ids: Seq<Seq<TaskId>>|
        {
            let outcome = #[trigger] a.completed(lease, outputs[index as int], now, ids);
            lease.task_id == task_id && outcome.answer is Ok && after[k] == outcome.state
        };
    law_committed_shards_are_recorded(a, lease, outputs[index as int], now, ids);
    assert(a.task_roles[task_id.0] == (BindingModel::Shard { job_id, role_name: name, index }));
    law_all_shards_make_the_role(shards, order, made, reduces, k as nat);
    law_all_shards_make_the_role(shards, order, made, reduces, (k + 1) as nat);
    law_fan_in_keeps_shard_order(held, index, made[index as int], reduces);
    let next = held.update(
        index as int,
        ShardStatusModel {
            task_id: held[index as int].task_id,
            outputs: Some(made[index as int]),
        },
    );
    if k == shards.len() - 1 {
        assert forall|i: int| 0 <= i < next.len() implies (#[trigger] next[i]).outputs == Some(made[i]) by {
            lemma_orders_are_complete(order, shards.len(), i);
            let j = choose|j: int| 0 <= j < shards.len() && #[trigger] order[j] == i;
            if i != index {
                assert(0 <= j < k && order[j] == i);
            }
        }
        lemma_joined_outputs(next, made, next.len());
    } else {
        let missing = order[k + 1] as int;
        assert(next[missing].outputs is None);
    }
}

/// What is left of a level where one of the groups has not put anything out.
proof fn lemma_level_unfinished(groups: Seq<ReductionStatusModel>, k: nat, i: int)
    requires
        0 <= i < k <= groups.len(),
        groups[i].outputs is None,
    ensures
        crate::fabric_model::level_outputs(groups, k) is None,
    decreases k,
{
    if i < k - 1 {
        lemma_level_unfinished(groups, (k - 1) as nat, i);
    }
}

/// What a level of a reduction leaves does not depend on the order in which its reducers end.
pub proof fn law_reduction_ignores_completion_order(
    groups: Seq<ReductionStatusModel>,
    i: usize,
    first: Seq<ObjectId>,
    j: usize,
    second: Seq<ObjectId>,
)
    requires
        i < groups.len(),
        j < groups.len(),
        i != j,
        groups[i as int].outputs is None,
        groups[j as int].outputs is None,
    ensures
        ({
            let status = RoleStatusModel::Reducing(groups);
            crate::fabric_model::after_reducer(
                crate::fabric_model::after_reducer(status, i, first),
                j,
                second,
            ) == crate::fabric_model::after_reducer(
                crate::fabric_model::after_reducer(status, j, second),
                i,
                first,
            )
        }),
{
    let one = groups.update(
        i as int,
        ReductionStatusModel { outputs: Some(first), ..groups[i as int] },
    );
    let other = groups.update(
        j as int,
        ReductionStatusModel { outputs: Some(second), ..groups[j as int] },
    );
    lemma_level_unfinished(one, one.len(), j as int);
    lemma_level_unfinished(other, other.len(), i as int);
    assert(one.update(j as int, ReductionStatusModel { outputs: Some(second), ..one[j as int] })
        =~= other.update(i as int, ReductionStatusModel { outputs: Some(first), ..other[i as int] }));
}

/// Sequences, one after the other.
pub open spec fn chained(groups: Seq<Seq<ObjectId>>, k: nat) -> Seq<ObjectId>
    decreases k,
{
    if k == 0 {
        Seq::empty()
    } else {
        chained(groups, (k - 1) as nat) + groups[k - 1]
    }
}

/// What the groups of a level have put out.
pub open spec fn level_results(groups: Seq<ReductionStatusModel>) -> Seq<Seq<ObjectId>> {
    Seq::new(groups.len(), |i: int| groups[i].outputs.unwrap())
}

proof fn lemma_level_outputs(groups: Seq<ReductionStatusModel>, k: nat)
    requires
        k <= groups.len(),
        forall|i: int| 0 <= i < k ==> (#[trigger] groups[i]).outputs is Some,
    ensures
        crate::fabric_model::level_outputs(groups, k) == Some(chained(level_results(groups), k)),
    decreases k,
{
    if k > 0 {
        lemma_level_outputs(groups, (k - 1) as nat);
        assert(groups[k - 1].outputs is Some);
    }
}

/// A level of a reduction ends as soon as all of its reducers are complete, and not before; what it
/// leaves are the outputs of its groups in their order. With one object left the role is complete,
/// with more it is reduced further.
pub proof fn law_reduction_keeps_the_order(
    groups: Seq<ReductionStatusModel>,
    index: usize,
    outputs: Seq<ObjectId>,
)
    requires
        index < groups.len(),
    ensures
        ({
            let next = groups.update(
                index as int,
                ReductionStatusModel { outputs: Some(outputs), ..groups[index as int] },
            );
            let left = chained(level_results(next), next.len());
            crate::fabric_model::after_reducer(RoleStatusModel::Reducing(groups), index, outputs)
                == if forall|i: int| 0 <= i < next.len() ==> (#[trigger] next[i]).outputs is Some {
                if left.len() > 1 {
                    RoleStatusModel::Reducible(left)
                } else {
                    RoleStatusModel::Completed(left)
                }
            } else {
                RoleStatusModel::Reducing(next)
            }
        }),
{
    let next = groups.update(
        index as int,
        ReductionStatusModel { outputs: Some(outputs), ..groups[index as int] },
    );
    if forall|i: int| 0 <= i < next.len() ==> (#[trigger] next[i]).outputs is Some {
        lemma_level_outputs(next, next.len());
    } else {
        let i = choose|i: int| 0 <= i < next.len() && !((#[trigger] next[i]).outputs is Some);
        lemma_level_unfinished(next, next.len(), i);
    }
}

proof fn lemma_groups_chain(objects: Seq<ObjectId>, ends: Seq<int>, limit: nat, k: nat)
    requires
        crate::reduction::tiles(ends, 0, objects.len() as int, limit),
        k <= ends.len(),
    ensures
        0 <= crate::reduction::group_start(ends, k as int) <= objects.len(),
        chained(crate::reduction::groups_of(objects, ends), k) == objects.take(
            crate::reduction::group_start(ends, k as int),
        ),
    decreases k,
{
    let groups = crate::reduction::groups_of(objects, ends);
    if k > 0 {
        lemma_groups_chain(objects, ends, limit, (k - 1) as nat);
        crate::reduction::lemma_ends_within(ends, objects.len() as int, limit, k - 1);
        let start = crate::reduction::group_start(ends, k - 1);
        assert(objects.take(start) + objects.subrange(start, ends[k - 1]) =~= objects.take(ends[k - 1]));
    } else {
        assert(chained(groups, 0) =~= objects.take(0));
    }
}

/// A level of a reduction takes every object once, in the order that they have, in groups that no
/// reducer finds too large; and there are fewer groups than objects, so that the levels come to an end.
pub proof fn law_levels_take_every_object(a: FabricModel, reduction: ReductionModel, objects: Seq<ObjectId>)
    requires
        reduction.max_fan_in >= 2,
        objects.len() >= 2,
    ensures
        ({
            let groups = a.next_groups(reduction, objects);
            &&& chained(groups, groups.len()) == objects
            &&& 0 < groups.len() < objects.len()
            &&& forall|i: int|
                0 <= i < groups.len() ==> 0 < (#[trigger] groups[i]).len() <= reduction.max_fan_in
        }),
{
    let places = crate::reduction::places_of(a.objects, objects);
    let grouping = crate::reduction::grouping_of(a.links, reduction.max_fan_in, reduction.locality_rtt_ms);
    let ends = grouping.ends(places);
    let groups = a.next_groups(reduction, objects);
    crate::reduction::law_groups_keep_the_order(grouping, places);
    crate::reduction::law_levels_make_progress(grouping, places);
    lemma_groups_chain(objects, ends, grouping.max_fan_in, ends.len());
    assert(objects.take(objects.len() as int) =~= objects);
    assert forall|i: int| 0 <= i < groups.len() implies 0 < (#[trigger] groups[i]).len()
        <= reduction.max_fan_in by {
        crate::reduction::lemma_ends_within(ends, objects.len() as int, grouping.max_fan_in, i);
        assert(crate::reduction::sized(ends, 0, i, grouping.max_fan_in));
    }
}

/// The bytes of sequences of objects, one after the other.
pub open spec fn chained_bytes(groups: Seq<Seq<Seq<u8>>>, k: nat) -> Seq<Seq<u8>>
    decreases k,
{
    if k == 0 {
        Seq::empty()
    } else {
        chained_bytes(groups, (k - 1) as nat) + groups[k - 1]
    }
}

/// An operation that may be applied to parts first: where they stand next to each other, and each has
/// something in it, what they come to makes the same as all of it at once.
pub open spec fn associative(operation: spec_fn(Seq<Seq<u8>>) -> Seq<u8>) -> bool {
    &&& forall|bytes: Seq<u8>| #[trigger] operation(seq![bytes]) == bytes
    &&& forall|groups: Seq<Seq<Seq<u8>>>|
        (forall|i: int| 0 <= i < groups.len() ==> (#[trigger] groups[i]).len() > 0)
            ==> #[trigger] operation(chained_bytes(groups, groups.len())) == operation(
            Seq::new(groups.len(), |i: int| operation(groups[i])),
        )
}

proof fn lemma_chained_bytes(contents: Map<u128, Seq<u8>>, groups: Seq<Seq<ObjectId>>, k: nat)
    requires
        k <= groups.len(),
    ensures
        chained_bytes(
            Seq::new(groups.len(), |i: int| crate::fusion_laws::bytes_of(contents, groups[i])),
            k,
        ) == crate::fusion_laws::bytes_of(contents, chained(groups, k)),
    decreases k,
{
    let parts = Seq::new(groups.len(), |i: int| crate::fusion_laws::bytes_of(contents, groups[i]));
    if k > 0 {
        lemma_chained_bytes(contents, groups, (k - 1) as nat);
        assert(crate::fusion_laws::bytes_of(contents, chained(groups, (k - 1) as nat)) + parts[k - 1]
            =~= crate::fusion_laws::bytes_of(contents, chained(groups, k)));
    } else {
        assert(chained_bytes(parts, 0) =~= crate::fusion_laws::bytes_of(contents, chained(groups, 0)));
    }
}

/// A level of a reduction keeps the result: where each of its groups leaves one object, which holds
/// what an associative operation makes of the group, the operation makes the same of what is left as
/// of what there was.
pub proof fn law_levels_keep_the_result(
    a: FabricModel,
    reduction: ReductionModel,
    objects: Seq<ObjectId>,
    contents: Map<u128, Seq<u8>>,
    left: Seq<ObjectId>,
    operation: spec_fn(Seq<Seq<u8>>) -> Seq<u8>,
)
    requires
        reduction.max_fan_in >= 2,
        objects.len() >= 2,
        associative(operation),
        left.len() == a.next_groups(reduction, objects).len(),
        forall|i: int|
            0 <= i < left.len() ==> contents[(#[trigger] left[i]).0] == operation(
                crate::fusion_laws::bytes_of(contents, a.next_groups(reduction, objects)[i]),
            ),
    ensures
        operation(crate::fusion_laws::bytes_of(contents, left)) == operation(
            crate::fusion_laws::bytes_of(contents, objects),
        ),
{
    let groups = a.next_groups(reduction, objects);
    let parts = Seq::new(groups.len(), |i: int| crate::fusion_laws::bytes_of(contents, groups[i]));
    law_levels_take_every_object(a, reduction, objects);
    lemma_chained_bytes(contents, groups, groups.len());
    assert(crate::fusion_laws::bytes_of(contents, left) =~= Seq::new(
        parts.len(),
        |i: int| operation(parts[i]),
    ));
    assert forall|i: int| 0 <= i < parts.len() implies (#[trigger] parts[i]).len() > 0 by {
        assert(groups[i].len() > 0);
    }
    assert(operation(chained_bytes(parts, parts.len())) == operation(
        Seq::new(parts.len(), |i: int| operation(parts[i])),
    ));
}

/// Outputs are there only if every dependency is complete.
pub(crate) proof fn lemma_outputs_of(statuses: Map<Seq<char>, RoleStatusModel>, dependencies: Seq<Seq<char>>, k: nat)
    requires
        k <= dependencies.len(),
    ensures
        crate::fabric_model::outputs_of(statuses, dependencies, k) is Some <==> forall|d: int|
            0 <= d < k ==> statuses.contains_key(#[trigger] dependencies[d])
                && statuses[dependencies[d]] is Completed,
    decreases k,
{
    if k > 0 {
        lemma_outputs_of(statuses, dependencies, (k - 1) as nat);
        if forall|d: int|
            0 <= d < k ==> statuses.contains_key(#[trigger] dependencies[d])
                && statuses[dependencies[d]] is Completed {
            assert(statuses.contains_key(dependencies[k - 1]));
        }
    }
}

/// Every dependency of a role is complete.
pub open spec fn dependencies_complete(
    statuses: Map<Seq<char>, RoleStatusModel>,
    dependencies: Seq<Seq<char>>,
) -> bool {
    forall|d: int|
        0 <= d < dependencies.len() ==> statuses.contains_key(#[trigger] dependencies[d])
            && statuses[dependencies[d]] is Completed
}

/// What a role is given to work on: the outputs of its dependencies, in their order.
pub open spec fn released(
    statuses: Map<Seq<char>, RoleStatusModel>,
    dependencies: Seq<Seq<char>>,
    inputs: Seq<ObjectId>,
) -> bool {
    dependencies_complete(statuses, dependencies) && inputs == crate::fabric_model::result_of(
        statuses,
        dependencies,
        dependencies.len(),
    )
}

proof fn lemma_outputs_are_results(
    statuses: Map<Seq<char>, RoleStatusModel>,
    dependencies: Seq<Seq<char>>,
    k: nat,
)
    requires
        k <= dependencies.len(),
    ensures
        crate::fabric_model::outputs_of(statuses, dependencies, k) matches Some(inputs) ==> inputs
            == crate::fabric_model::result_of(statuses, dependencies, k),
    decreases k,
{
    if k > 0 {
        lemma_outputs_are_results(statuses, dependencies, (k - 1) as nat);
    }
}

/// Among the roles of a fixed job from `i` on, those are ready that wait and whose dependencies are
/// all complete.
proof fn lemma_ready_cooperative(
    roles: Seq<CooperativeRoleModel>,
    statuses: Map<Seq<char>, RoleStatusModel>,
    i: int,
)
    requires
        0 <= i,
    ensures
        forall|r: ReadyModel| #[trigger]
            crate::fabric_model::ready_cooperative(roles, statuses, i).contains(r) <==> exists|k: int|
                i <= k < roles.len() && #[trigger] ready_as(roles[k], statuses, r),
    decreases roles.len() - i,
{
    if i < roles.len() {
        lemma_ready_cooperative(roles, statuses, i + 1);
        let role = roles[i];
        lemma_outputs_of(statuses, role.depends_on, role.depends_on.len());
        lemma_outputs_are_results(statuses, role.depends_on, role.depends_on.len());
        let all = crate::fabric_model::ready_cooperative(roles, statuses, i);
        let rest = crate::fabric_model::ready_cooperative(roles, statuses, i + 1);
        assert forall|r: ReadyModel| #[trigger] all.contains(r) <==> exists|k: int|
            i <= k < roles.len() && #[trigger] ready_as(roles[k], statuses, r) by {
            assert(all.contains(r) <==> rest.contains(r) || ready_as(role, statuses, r)) by {
                let found = crate::fabric_model::outputs_of(
                    statuses,
                    role.depends_on,
                    role.depends_on.len(),
                );
                assert(found is Some <==> dependencies_complete(statuses, role.depends_on));
                if statuses.contains_key(role.name) && statuses[role.name] is Waiting && found is Some {
                    let inputs = found.unwrap();
                    let head = ReadyModel::Cooperative { name: role.name, task: role.task, inputs };
                    assert(all =~= seq![head] + rest);
                    assert(ready_as(role, statuses, r) <==> r == head);
                    assert(all[0] == head);
                    if rest.contains(r) {
                        let k = choose|k: int| 0 <= k < rest.len() && rest[k] == r;
                        assert(all[k + 1] == r);
                    }
                    if all.contains(r) {
                        let k = choose|k: int| 0 <= k < all.len() && all[k] == r;
                        if k > 0 {
                            assert(rest[k - 1] == r);
                        }
                    }
                } else {
                    assert(all =~= rest);
                }
            }
            if rest.contains(r) {
                let k = choose|k: int| i + 1 <= k < roles.len() && #[trigger] ready_as(roles[k], statuses, r);
                assert(ready_as(roles[k], statuses, r));
            }
            if exists|k: int| i <= k < roles.len() && #[trigger] ready_as(roles[k], statuses, r) {
                let k = choose|k: int| i <= k < roles.len() && #[trigger] ready_as(roles[k], statuses, r);
                if k > i {
                    assert(rest.contains(r));
                }
            }
        }
    }
}

/// A fixed role that waits, and whose dependencies are all complete, is released with their outputs.
pub open spec fn ready_as(
    role: CooperativeRoleModel,
    statuses: Map<Seq<char>, RoleStatusModel>,
    ready: ReadyModel,
) -> bool {
    &&& statuses.contains_key(role.name)
    &&& statuses[role.name] is Waiting
    &&& ready matches ReadyModel::Cooperative { name, task, inputs } && name == role.name && task
        == role.task && released(statuses, role.depends_on, inputs)
}

/// A logical role that has not started, and whose dependencies are all complete, is released with
/// their outputs and the chain that it begins; one that reduces, as long as there is something left
/// to be reduced, with that.
pub open spec fn ready_in(
    job: LogicalJobModel,
    at: int,
    statuses: Map<Seq<char>, RoleStatusModel>,
    ready: ReadyModel,
) -> bool {
    let subject = job.roles[at];
    match ready {
        ReadyModel::Logical { role, inputs, chain } => {
            &&& unstarted(statuses, subject.name)
            &&& role == subject
            &&& released(statuses, role.depends_on, inputs)
            &&& chain == crate::fabric_model::chain_from(job, statuses, seq![role], job.roles.len())
        },
        ReadyModel::Reduction { name, reduction, objects } => {
            &&& name == subject.name
            &&& subject.reduction == Some(reduction)
            &&& statuses.contains_key(name)
            &&& statuses[name] == RoleStatusModel::Reducible(objects)
        },
        ReadyModel::Cooperative { .. } => false,
    }
}

proof fn lemma_ready_logical(job: LogicalJobModel, statuses: Map<Seq<char>, RoleStatusModel>, i: int)
    requires
        0 <= i,
    ensures
        forall|r: ReadyModel| #[trigger]
            crate::fabric_model::ready_logical(job, statuses, i).contains(r) <==> exists|k: int|
                i <= k < job.roles.len() && #[trigger] ready_in(job, k, statuses, r),
    decreases job.roles.len() - i,
{
    if i < job.roles.len() {
        lemma_ready_logical(job, statuses, i + 1);
        let role = job.roles[i];
        lemma_outputs_of(statuses, role.depends_on, role.depends_on.len());
        lemma_outputs_are_results(statuses, role.depends_on, role.depends_on.len());
        let all = crate::fabric_model::ready_logical(job, statuses, i);
        let rest = crate::fabric_model::ready_logical(job, statuses, i + 1);
        assert forall|r: ReadyModel| #[trigger] all.contains(r) <==> exists|k: int|
            i <= k < job.roles.len() && #[trigger] ready_in(job, k, statuses, r) by {
            assert(all.contains(r) <==> rest.contains(r) || ready_in(job, i, statuses, r)) by {
                let found = crate::fabric_model::outputs_of(
                    statuses,
                    role.depends_on,
                    role.depends_on.len(),
                );
                assert(found is Some <==> dependencies_complete(statuses, role.depends_on));
                if unstarted(statuses, role.name) && found is Some {
                    let inputs = found.unwrap();
                    let head = ReadyModel::Logical {
                        role,
                        inputs,
                        chain: crate::fabric_model::chain_from(
                            job,
                            statuses,
                            seq![role],
                            job.roles.len(),
                        ),
                    };
                    assert(all =~= seq![head] + rest);
                    assert(ready_in(job, i, statuses, r) <==> r == head);
                    assert(all[0] == head);
                    if rest.contains(r) {
                        let k = choose|k: int| 0 <= k < rest.len() && rest[k] == r;
                        assert(all[k + 1] == r);
                    }
                    if all.contains(r) {
                        let k = choose|k: int| 0 <= k < all.len() && all[k] == r;
                        if k > 0 {
                            assert(rest[k - 1] == r);
                        }
                    }
                } else if !unstarted(statuses, role.name) && statuses.contains_key(role.name)
                    && role.reduction is Some && statuses[role.name] is Reducible {
                    let head = ReadyModel::Reduction {
                        name: role.name,
                        reduction: role.reduction.unwrap(),
                        objects: statuses[role.name]->Reducible_0,
                    };
                    assert(all =~= seq![head] + rest);
                    assert(ready_in(job, i, statuses, r) <==> r == head);
                    assert(all[0] == head);
                    if rest.contains(r) {
                        let k = choose|k: int| 0 <= k < rest.len() && rest[k] == r;
                        assert(all[k + 1] == r);
                    }
                    if all.contains(r) {
                        let k = choose|k: int| 0 <= k < all.len() && all[k] == r;
                        if k > 0 {
                            assert(rest[k - 1] == r);
                        }
                    }
                } else {
                    assert(all =~= rest);
                }
            }
            if rest.contains(r) {
                let k = choose|k: int| i + 1 <= k < job.roles.len() && #[trigger] ready_in(job, k, statuses, r);
                assert(ready_in(job, k, statuses, r));
            }
            if exists|k: int| i <= k < job.roles.len() && #[trigger] ready_in(job, k, statuses, r) {
                let k = choose|k: int| i <= k < job.roles.len() && #[trigger] ready_in(job, k, statuses, r);
                if k > i {
                    assert(rest.contains(r));
                }
            }
        }
    }
}

/// A role is released just when all its dependencies are complete and it has not started; it is
/// given their outputs in the order in which it names them. A role that reduces is released again as
/// long as there is something left to be reduced.
pub proof fn law_roles_wait_for_their_dependencies(job: JobRecordModel, ready: ReadyModel)
    ensures
        crate::fabric_model::ready_roles(job).contains(ready) <==> match job.definition {
            JobModel::Cooperative(spec) => exists|k: int|
                0 <= k < spec.roles.len() && #[trigger] ready_as(spec.roles[k], job.roles, ready),
            JobModel::Logical(spec) => exists|k: int|
                0 <= k < spec.roles.len() && #[trigger] ready_in(spec, k, job.roles, ready),
        },
{
    match job.definition {
        JobModel::Cooperative(spec) => {
            lemma_ready_cooperative(spec.roles, job.roles, 0);
        },
        JobModel::Logical(spec) => {
            lemma_ready_logical(spec, job.roles, 0);
        },
    }
}

/// A pending task is sent only to an active resource that supports it and on which nothing runs.
pub proof fn law_tasks_go_to_idle_members(a: FabricModel, task_id: TaskId, now: u64)
    requires
        a.wf(),
    ensures
        a.scheduled(task_id, now) matches Ok(decision) ==> {
            &&& a.tasks.contains_key(task_id.0)
            &&& a.tasks[task_id.0].status is Pending
            &&& a.active(decision.resource_id.0, now)
            &&& !a.busy(decision.resource_id, now)
            &&& a.resources[decision.resource_id.0].descriptor.supported(
                a.tasks[task_id.0].spec.requirements,
            )
        },
{
    if let Ok(decision) = a.scheduled(task_id, now) {
        let task = a.tasks[task_id.0].spec;
        let context = a.context(now);
        crate::scheduler::law_choice_is_cheapest(
            context.risk_multiplier,
            task,
            context.resources,
            context.objects,
            context.links,
        );
        let i = choose|i: int| #[trigger]
            crate::scheduler::first_cheapest(
                context.risk_multiplier,
                task,
                context.resources,
                context.objects,
                context.links,
                context.resources.len(),
                i,
                decision,
            ) && context.resources[i].supported(task.requirements);
        let idle = |k: u128| a.active(k, now) && !a.busy(a.resources[k].descriptor.id, now);
        let keys = a.idle_keys(now);
        lemma_filtered(crate::collections::sorted(a.resources.dom()), idle, keys[i]);
        assert(keys.contains(keys[i]));
        assert(a.resources.contains_key(keys[i]));
    }
}

}

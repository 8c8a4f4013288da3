//! What holds of the roles of a job: what each of them is given, and which of them run as one task.

use vstd::prelude::*;

use crate::binary64::Binary64;
use crate::chains::FusionModel;
use crate::fabric_model::{BindingModel, FabricModel, JobRecordModel, ReadyModel};
use crate::ids::{JobId, ObjectId, TaskId};
use crate::jobs::{
    AutoShardModel,
    JobModel,
    LogicalJobModel,
    LogicalRoleModel,
    ReductionModel,
    ShardPolicyModel,
};
use crate::objects::ObjectModel;
use crate::scheduler::FusionAdvisor;
use crate::shards::{ContextModel, ShardChoice};
use crate::status::{JobStatusModel, RoleStatusModel};
use crate::tasks::{TaskModel, TemplateModel};

verus! {

/// How many objects the first `k` of some roles have put out.
pub open spec fn put_out(statuses: Map<Seq<char>, RoleStatusModel>, names: Seq<Seq<char>>, k: nat) -> nat
    decreases k,
{
    if k == 0 {
        0
    } else {
        put_out(statuses, names, (k - 1) as nat) + statuses[names[k - 1]]->Completed_0.len()
    }
}

/// All of some roles are complete, and their outputs stand one after the other in the order of the
/// roles: those of each behind as many objects as the roles before it have put out.
pub open spec fn in_order(
    statuses: Map<Seq<char>, RoleStatusModel>,
    names: Seq<Seq<char>>,
    objects: Seq<ObjectId>,
) -> bool {
    &&& forall|i: int|
        0 <= i < names.len() ==> statuses.contains_key(#[trigger] names[i]) && statuses[names[i]] is Completed
    &&& objects.len() == put_out(statuses, names, names.len())
    &&& forall|i: int|
        0 <= i < names.len() ==> {
            let outputs = statuses[#[trigger] names[i]]->Completed_0;
            let start = put_out(statuses, names, i as nat) as int;
            start + outputs.len() <= objects.len() && objects.subrange(start, start + outputs.len()) == outputs
        }
}

proof fn lemma_put_out_prefix(
    statuses: Map<Seq<char>, RoleStatusModel>,
    names: Seq<Seq<char>>,
    n: int,
    k: nat,
)
    requires
        k <= n <= names.len(),
    ensures
        put_out(statuses, names.take(n), k) == put_out(statuses, names, k),
    decreases k,
{
    if k > 0 {
        lemma_put_out_prefix(statuses, names, n, (k - 1) as nat);
    }
}

/// One more role that is complete puts its outputs behind those of the others.
proof fn lemma_one_more_in_order(
    statuses: Map<Seq<char>, RoleStatusModel>,
    names: Seq<Seq<char>>,
    m: nat,
    earlier: Seq<ObjectId>,
    last: Seq<ObjectId>,
)
    requires
        m < names.len(),
        in_order(statuses, names.take(m as int), earlier),
        statuses.contains_key(names[m as int]),
        statuses[names[m as int]] == RoleStatusModel::Completed(last),
    ensures
        in_order(statuses, names.take((m + 1) as int), earlier + last),
{
    let before = names.take(m as int);
    let first = names.take((m + 1) as int);
    let inputs = earlier + last;
    lemma_put_out_prefix(statuses, names, (m + 1) as int, m + 1);
    lemma_put_out_prefix(statuses, names, (m + 1) as int, m);
    lemma_put_out_prefix(statuses, names, m as int, m);
    assert(first[m as int] == names[m as int]);
    assert forall|i: int| 0 <= i < first.len() implies statuses.contains_key(#[trigger] first[i])
        && statuses[first[i]] is Completed by {
        if i < m {
            assert(before[i] == first[i]);
        }
    }
    assert forall|i: int| 0 <= i < first.len() implies ({
        let outputs = statuses[#[trigger] first[i]]->Completed_0;
        let start = put_out(statuses, first, i as nat) as int;
        start + outputs.len() <= inputs.len() && inputs.subrange(start, start + outputs.len()) == outputs
    }) by {
        let outputs = statuses[first[i]]->Completed_0;
        let start = put_out(statuses, first, i as nat) as int;
        lemma_put_out_prefix(statuses, names, (m + 1) as int, i as nat);
        if i < m {
            lemma_put_out_prefix(statuses, names, m as int, i as nat);
            assert(before[i] == first[i]);
            assert(inputs.subrange(start, start + outputs.len()) =~= earlier.subrange(
                start,
                start + outputs.len(),
            ));
        } else {
            assert(inputs.subrange(start, start + outputs.len()) =~= last);
        }
    }
}

proof fn lemma_outputs_in_order(statuses: Map<Seq<char>, RoleStatusModel>, names: Seq<Seq<char>>, k: nat)
    requires
        k <= names.len(),
    ensures
        match crate::fabric_model::outputs_of(statuses, names, k) {
            Some(inputs) => in_order(statuses, names.take(k as int), inputs),
            None => exists|i: int|
                0 <= i < k && !(statuses.contains_key(#[trigger] names[i]) && statuses[names[i]] is Completed),
        },
    decreases k,
{
    if k > 0 {
        let m = (k - 1) as nat;
        lemma_outputs_in_order(statuses, names, m);
        match crate::fabric_model::outputs_of(statuses, names, m) {
            Some(earlier) => {
                match crate::fabric_model::outputs_of(statuses, names, k) {
                    Some(inputs) => {
                        let last = statuses[names[k - 1]]->Completed_0;
                        lemma_one_more_in_order(statuses, names, m, earlier, last);
                        assert(inputs == earlier + last);
                    },
                    None => {
                        assert(!(statuses.contains_key(names[k - 1]) && statuses[names[k - 1]] is Completed));
                    },
                }
            },
            None => {
                let i = choose|i: int|
                    0 <= i < m && !(statuses.contains_key(#[trigger] names[i]) && statuses[names[i]] is Completed);
                assert(!(statuses.contains_key(names[i]) && statuses[names[i]] is Completed));
            },
        }
    }
}

proof fn lemma_results_are_outputs(statuses: Map<Seq<char>, RoleStatusModel>, names: Seq<Seq<char>>, k: nat)
    requires
        k <= names.len(),
        forall|i: int|
            0 <= i < k ==> statuses.contains_key(#[trigger] names[i]) && statuses[names[i]] is Completed,
    ensures
        crate::fabric_model::outputs_of(statuses, names, k) == Some(
            crate::fabric_model::result_of(statuses, names, k),
        ),
    decreases k,
{
    if k > 0 {
        lemma_results_are_outputs(statuses, names, (k - 1) as nat);
        assert(statuses.contains_key(names[k - 1]));
    }
}

/// A role that is released has its dependencies complete, and is given their outputs one after the
/// other in the order in which it names them.
pub proof fn law_inputs_follow_the_dependencies(job: JobRecordModel, ready: ReadyModel)
    requires
        crate::fabric_model::ready_roles(job).contains(ready),
    ensures
        match ready {
            ReadyModel::Cooperative { name, task, inputs } => job.definition matches JobModel::Cooperative(spec)
                && exists|k: int|
                0 <= k < spec.roles.len() && (#[trigger] spec.roles[k]).name == name && spec.roles[k].task
                    == task && in_order(job.roles, spec.roles[k].depends_on, inputs),
            ReadyModel::Logical { role, inputs, .. } => job.definition matches JobModel::Logical(spec)
                && spec.roles.contains(role) && in_order(job.roles, role.depends_on, inputs),
            ReadyModel::Reduction { name, objects, .. } => job.roles.contains_key(name) && job.roles[name]
                == RoleStatusModel::Reducible(objects),
        },
{
    crate::fabric_laws::law_roles_wait_for_their_dependencies(job, ready);
    match job.definition {
        JobModel::Cooperative(spec) => {
            let k = choose|k: int|
                0 <= k < spec.roles.len() && #[trigger] crate::fabric_laws::ready_as(
                    spec.roles[k],
                    job.roles,
                    ready,
                );
            let names = spec.roles[k].depends_on;
            lemma_results_are_outputs(job.roles, names, names.len());
            lemma_outputs_in_order(job.roles, names, names.len());
            assert(names.take(names.len() as int) =~= names);
        },
        JobModel::Logical(spec) => {
            let k = choose|k: int|
                0 <= k < spec.roles.len() && #[trigger] crate::fabric_laws::ready_in(
                    spec,
                    k,
                    job.roles,
                    ready,
                );
            if ready is Logical {
                let names = spec.roles[k].depends_on;
                lemma_results_are_outputs(job.roles, names, names.len());
                lemma_outputs_in_order(job.roles, names, names.len());
                assert(names.take(names.len() as int) =~= names);
            }
        },
    }
}

/// Inputs are there for a role just when every dependency is complete, and then they are the outputs
/// of the dependencies one after the other.
pub proof fn law_inputs_need_every_dependency(
    statuses: Map<Seq<char>, RoleStatusModel>,
    dependencies: Seq<Seq<char>>,
)
    ensures
        match crate::fabric_model::outputs_of(statuses, dependencies, dependencies.len()) {
            Some(inputs) => in_order(statuses, dependencies, inputs),
            None => exists|i: int|
                0 <= i < dependencies.len() && !(statuses.contains_key(#[trigger] dependencies[i])
                    && statuses[dependencies[i]] is Completed),
        },
{
    lemma_outputs_in_order(statuses, dependencies, dependencies.len());
    assert(dependencies.take(dependencies.len() as int) =~= dependencies);
}

/// A job is uncertain as soon as one of its roles is; it is complete just when all of them are, and
/// then has the outputs of the roles that it declares, one after the other in the order in which it
/// declares them.
pub proof fn law_jobs_end_with_their_outputs(job: JobRecordModel)
    requires
        crate::fabric_model::staffed(job),
        crate::fabric_model::sound_graph(job.definition),
    ensures
        ({
            let declared = match job.definition {
                JobModel::Cooperative(spec) => spec.outputs,
                JobModel::Logical(spec) => spec.outputs,
            };
            let doubtful = exists|name: Seq<char>| #[trigger]
                job.roles.contains_key(name) && job.roles[name] is Uncertain;
            let done = forall|name: Seq<char>| #[trigger]
                job.roles.contains_key(name) ==> job.roles[name] is Completed;
            match job.status() {
                JobStatusModel::Completed(objects) => done && in_order(job.roles, declared, objects),
                JobStatusModel::Uncertain => doubtful,
                JobStatusModel::Running => !doubtful && !done,
            }
        }),
{
    reveal(crate::fabric_model::sound_graph);
    let graph = crate::fabric_model::role_graph_of(job.definition);
    let declared = crate::fabric_model::outputs_declared(job.definition);
    if let JobStatusModel::Completed(objects) = job.status() {
        assert forall|i: int| 0 <= i < declared.len() implies job.roles.contains_key(
            #[trigger] declared[i],
        ) && job.roles[declared[i]] is Completed by {
            assert(crate::role_graph::named(graph, declared[i]));
            let j = choose|j: int| 0 <= j < graph.len() && (#[trigger] graph[j]).name == declared[i];
            assert(job.roles.contains_key(graph[j].name));
        }
        lemma_results_are_outputs(job.roles, declared, declared.len());
        lemma_outputs_in_order(job.roles, declared, declared.len());
        assert(declared.take(declared.len() as int) =~= declared);
    }
}

/// A role that may run as the next stage behind another: it depends on that one and on nothing else,
/// no other role of the job depends on it, and it is not an output of the job. The next role is not
/// divided, and waits.
pub open spec fn follows(
    job: LogicalJobModel,
    statuses: Map<Seq<char>, RoleStatusModel>,
    before: LogicalRoleModel,
    role: LogicalRoleModel,
) -> bool {
    &&& role.depends_on.len() == 1
    &&& role.depends_on[0] == before.name
    &&& exists|p: int|
        0 <= p < job.roles.len() && #[trigger] job.roles[p] == role && forall|q: int|
            0 <= q < job.roles.len() && q != p ==> !(#[trigger] job.roles[q]).depends_on.contains(before.name)
    &&& forall|o: int| 0 <= o < job.outputs.len() ==> #[trigger] job.outputs[o] != before.name
    &&& role.shards == ShardPolicyModel::Fixed(1)
    &&& statuses.contains_key(role.name)
    &&& statuses[role.name] is Waiting
}

proof fn lemma_consumer(roles: Seq<LogicalRoleModel>, name: Seq<char>, i: int)
    requires
        0 <= i,
    ensures
        match crate::fabric_model::consumer_from(roles, name, i) {
            Some(p) => i <= p < roles.len() && roles[p].depends_on.contains(name) && forall|q: int|
                i <= q < p ==> !(#[trigger] roles[q]).depends_on.contains(name),
            None => forall|q: int| i <= q < roles.len() ==> !(#[trigger] roles[q]).depends_on.contains(name),
        },
    decreases roles.len() - i,
{
    if i < roles.len() && !roles[i].depends_on.contains(name) {
        lemma_consumer(roles, name, i + 1);
    }
}

proof fn lemma_next_follows(
    job: LogicalJobModel,
    statuses: Map<Seq<char>, RoleStatusModel>,
    last: LogicalRoleModel,
)
    ensures
        match crate::fabric_model::next_in_chain(job, statuses, last) {
            Some(p) => 0 <= p < job.roles.len() && follows(job, statuses, last, job.roles[p]),
            None => forall|role: LogicalRoleModel| !#[trigger] follows(job, statuses, last, role),
        },
{
    lemma_consumer(job.roles, last.name, 0);
    match crate::fabric_model::next_in_chain(job, statuses, last) {
        Some(p) => {
            lemma_consumer(job.roles, last.name, p + 1);
            assert(job.roles[p].depends_on[0] == last.name);
            assert forall|o: int| 0 <= o < job.outputs.len() implies #[trigger] job.outputs[o] != last.name by {
                assert(job.outputs.contains(job.outputs[o]));
            }
        },
        None => {
            assert forall|role: LogicalRoleModel| !#[trigger] follows(job, statuses, last, role) by {
                if follows(job, statuses, last, role) {
                    let p = choose|p: int|
                        0 <= p < job.roles.len() && #[trigger] job.roles[p] == role && forall|q: int|
                            0 <= q < job.roles.len() && q != p
                                ==> !(#[trigger] job.roles[q]).depends_on.contains(last.name);
                    assert(role.depends_on =~= seq![last.name]);
                    assert(job.roles[p].depends_on[0] == last.name);
                    assert(job.roles[p].depends_on.contains(last.name));
                    let i = crate::fabric_model::consumer_from(job.roles, last.name, 0).unwrap();
                    assert(i == p);
                    lemma_consumer(job.roles, last.name, i + 1);
                    if job.outputs.contains(last.name) {
                        let o = choose|o: int| 0 <= o < job.outputs.len() && job.outputs[o] == last.name;
                        assert(job.outputs[o] != last.name);
                    }
                }
            }
        },
    }
}

pub(crate) proof fn lemma_chain_follows(
    job: LogicalJobModel,
    statuses: Map<Seq<char>, RoleStatusModel>,
    chain: Seq<LogicalRoleModel>,
    limit: nat,
)
    requires
        chain.len() > 0,
        forall|i: int| 1 <= i < chain.len() ==> follows(job, statuses, chain[i - 1], #[trigger] chain[i]),
    ensures
        ({
            let all = crate::fabric_model::chain_from(job, statuses, chain, limit);
            &&& chain.len() <= all.len() <= chain.len() + limit
            &&& all[0] == chain[0]
            &&& forall|i: int| 1 <= i < all.len() ==> follows(job, statuses, all[i - 1], #[trigger] all[i])
            &&& all.len() == chain.len() + limit || forall|role: LogicalRoleModel|
                !#[trigger] follows(job, statuses, all.last(), role)
        }),
    decreases limit,
{
    if limit > 0 {
        lemma_next_follows(job, statuses, chain.last());
        if let Some(p) = crate::fabric_model::next_in_chain(job, statuses, chain.last()) {
            let longer = chain.push(job.roles[p]);
            assert forall|i: int| 1 <= i < longer.len() implies follows(
                job,
                statuses,
                longer[i - 1],
                #[trigger] longer[i],
            ) by {
                if i < chain.len() {
                    assert(longer[i] == chain[i]);
                }
            }
            lemma_chain_follows(job, statuses, longer, (limit - 1) as nat);
        }
    }
}

/// The chain that a ready role begins is linear: each role of it depends on the one before it and on
/// nothing else, and nothing else depends on that one or is to get its output. It ends only where no
/// role follows so, or where it has as many steps as the job has roles.
pub proof fn law_chains_are_linear(job: JobRecordModel, ready: ReadyModel)
    requires
        crate::fabric_model::ready_roles(job).contains(ready),
    ensures
        ready matches ReadyModel::Logical { role, chain, .. } ==> (job.definition matches JobModel::Logical(spec)
            && {
            &&& 1 <= chain.len() <= spec.roles.len() + 1
            &&& chain[0] == role
            &&& forall|i: int|
                1 <= i < chain.len() ==> follows(spec, job.roles, chain[i - 1], #[trigger] chain[i])
            &&& chain.len() == spec.roles.len() + 1 || forall|next: LogicalRoleModel|
                !#[trigger] follows(spec, job.roles, chain.last(), next)
        }),
{
    crate::fabric_laws::law_roles_wait_for_their_dependencies(job, ready);
    if let ReadyModel::Logical { role, .. } = ready {
        match job.definition {
            JobModel::Logical(spec) => {
                lemma_chain_follows(spec, job.roles, seq![role], spec.roles.len());
            },
            JobModel::Cooperative(spec) => {
                let k = choose|k: int|
                    0 <= k < spec.roles.len() && #[trigger] crate::fabric_laws::ready_as(
                        spec.roles[k],
                        job.roles,
                        ready,
                    );
            },
        }
    }
}

/// A task that runs a template does what the template says, on the objects that the template names and
/// then on those that it is given, each in their order.
pub open spec fn runs(task: TaskModel, template: TemplateModel, given: Seq<ObjectId>) -> bool {
    &&& task.artifact == template.artifact
    &&& task.entrypoint == template.entrypoint
    &&& task.arguments == template.arguments
    &&& task.requirements == template.requirements
    &&& task.effects == template.effects
    &&& task.pipeline is None
    &&& task.inputs.len() == template.inputs.len() + given.len()
    &&& forall|i: int| 0 <= i < template.inputs.len() ==> #[trigger] task.inputs[i] == template.inputs[i]
    &&& forall|i: int|
        0 <= i < given.len() ==> #[trigger] given[i] == task.inputs[template.inputs.len() + i]
}

/// A template is run as it is written, at the cost that it states, on its own objects first.
pub proof fn law_templates_become_tasks(template: TemplateModel, given: Seq<ObjectId>, id: TaskId)
    ensures
        ({
            let task = template.instantiated(given, id);
            &&& runs(task, template, given)
            &&& task.id == id
            &&& task.cost == template.cost
            &&& task.shard is None
        }),
{
}

/// Each of several shards is the work of a template on its part: a shard does what the template says
/// on all the objects, and knows which of how many it is. Where the input is not cut it costs what the
/// template states.
pub proof fn law_shards_run_their_template(
    template: TemplateModel,
    given: Seq<ObjectId>,
    index: u32,
    count: u32,
    policy: Option<AutoShardModel>,
    objects: Map<u128, ObjectModel>,
    id: TaskId,
)
    ensures
        crate::shards::shard_task(template, given, index, count, policy, objects, id) matches Some(task) ==> {
            &&& runs(task, template, given)
            &&& task.id == id
            &&& task.shard matches Some(shard)
            &&& shard.index == index
            &&& shard.count == count
            &&& policy is None ==> task.cost == template.cost && shard.partition is None
            &&& policy is Some ==> shard.partition is Some
        },
        policy is None ==> crate::shards::shard_task(
            template,
            given,
            index,
            count,
            policy,
            objects,
            id,
        ) is Some,
{
    law_templates_become_tasks(template, given, id);
}

proof fn lemma_shards_are_submitted(
    a: FabricModel,
    job_id: JobId,
    name: Seq<char>,
    choices: Seq<ShardChoice>,
    k: int,
    j: int,
)
    requires
        a.wf(),
        a.jobs.contains_key(job_id.0),
        a.jobs[job_id.0].roles.contains_key(name),
        0 <= k <= j < choices.len(),
        a.shards_submitted(job_id, name, choices, k).answer is Ok,
    ensures
        ({
            let b = a.shards_submitted(job_id, name, choices, k).state;
            let id = choices[j].task.id.0;
            &&& !a.tasks.contains_key(id)
            &&& b.tasks.contains_key(id)
            &&& b.tasks[id].spec == choices[j].task
            &&& b.tasks[id].status is Pending
            &&& b.task_roles.contains_key(id)
            &&& b.task_roles[id] == (BindingModel::Shard { job_id, role_name: name, index: j as usize })
        }),
    decreases choices.len() - k,
{
    let one = a.submitted(choices[k].task);
    crate::fabric_model::lemma_wf_submitted(a, choices[k].task);
    let binding = BindingModel::Shard { job_id, role_name: name, index: k as usize };
    crate::fabric_model::lemma_wf_bound(one.state, choices[k].task.id, binding);
    let next = one.state.bound(choices[k].task.id, binding);
    if k == j {
        crate::fabric_laws::lemma_shards_submitted_extends(next, job_id, name, choices, k + 1);
        let b = next.shards_submitted(job_id, name, choices, k + 1).state;
        assert(next.tasks.contains_key(choices[j].task.id.0));
        assert(next.task_roles.contains_key(choices[j].task.id.0));
    } else {
        lemma_shards_are_submitted(next, job_id, name, choices, k + 1, j);
        assert(next.tasks.contains_key(choices[k].task.id.0));
    }
}

proof fn lemma_reducers_are_submitted(
    a: FabricModel,
    job_id: JobId,
    name: Seq<char>,
    task: TemplateModel,
    groups: Seq<Seq<ObjectId>>,
    ids: Seq<TaskId>,
    k: int,
    j: int,
)
    requires
        a.wf(),
        a.jobs.contains_key(job_id.0),
        a.jobs[job_id.0].roles.contains_key(name),
        0 <= k <= j < groups.len(),
        groups[j].len() > 1,
        a.reducers_submitted(job_id, name, task, groups, ids, k).answer is Ok,
    ensures
        ({
            let b = a.reducers_submitted(job_id, name, task, groups, ids, k).state;
            let id = ids[j].0;
            &&& b.tasks.contains_key(id)
            &&& b.tasks[id].spec == task.instantiated(groups[j], ids[j])
            &&& b.tasks[id].status is Pending
            &&& b.task_roles.contains_key(id)
            &&& b.task_roles[id] == (BindingModel::Reducer { job_id, role_name: name, index: j as usize })
        }),
    decreases groups.len() - k,
{
    if groups[k].len() <= 1 {
        lemma_reducers_are_submitted(a, job_id, name, task, groups, ids, k + 1, j);
    } else {
        let reducer = task.instantiated(groups[k], ids[k]);
        let one = a.submitted(reducer);
        crate::fabric_model::lemma_wf_submitted(a, reducer);
        let binding = BindingModel::Reducer { job_id, role_name: name, index: k as usize };
        crate::fabric_model::lemma_wf_bound(one.state, ids[k], binding);
        let next = one.state.bound(ids[k], binding);
        if k == j {
            crate::fabric_laws::lemma_reducers_submitted_extends(
                next,
                job_id,
                name,
                task,
                groups,
                ids,
                k + 1,
            );
            assert(next.tasks.contains_key(ids[j].0));
            assert(next.task_roles.contains_key(ids[j].0));
        } else {
            lemma_reducers_are_submitted(next, job_id, name, task, groups, ids, k + 1, j);
        }
    }
}

/// The task at an identity waits, and runs a template on what it is given.
pub open spec fn waits_to_run(b: FabricModel, id: TaskId, template: TemplateModel, given: Seq<ObjectId>) -> bool {
    &&& b.tasks.contains_key(id.0)
    &&& b.tasks[id.0].status is Pending
    &&& b.tasks[id.0].spec.id == id
    &&& runs(b.tasks[id.0].spec, template, given)
}

/// A fixed role that is set to work is the work of one task, which runs its template on the outputs of
/// its dependencies, and which it waits for.
pub proof fn law_fixed_roles_run_their_task(
    a: FabricModel,
    job_id: JobId,
    name: Seq<char>,
    template: TemplateModel,
    inputs: Seq<ObjectId>,
    now: u64,
    ids: Seq<TaskId>,
)
    requires
        a.materialized_role(
            job_id,
            ReadyModel::Cooperative { name, task: template, inputs },
            now,
            ids,
        ).answer is Ok,
    ensures
        ({
            let b = a.materialized_role(
                job_id,
                ReadyModel::Cooperative { name, task: template, inputs },
                now,
                ids,
            ).state;
            &&& waits_to_run(b, ids[0], template, inputs)
            &&& b.jobs[job_id.0].roles[name] == RoleStatusModel::Submitted(ids[0])
            &&& b.task_roles[ids[0].0] == (BindingModel::Single { job_id, role_name: name })
        }),
{
    reveal(FabricModel::materialized_role);
    law_templates_become_tasks(template, inputs, ids[0]);
}

/// A logical role that is ready to run undivided is either left ready, where nothing can run it; or is
/// the work of one task, which runs one of its implementations on the outputs of its dependencies; or
/// is one stage of several of a fused task. What was chosen is recorded with it.
pub proof fn law_logical_roles_run_an_implementation(
    a: FabricModel,
    job_id: JobId,
    role: LogicalRoleModel,
    inputs: Seq<ObjectId>,
    chain: Seq<LogicalRoleModel>,
    now: u64,
    ids: Seq<TaskId>,
)
    requires
        role.shards == ShardPolicyModel::Fixed(1),
        chain.len() > 0,
        chain[0] == role,
        a.materialized_role(job_id, ReadyModel::Logical { role, inputs, chain }, now, ids).answer is Ok,
    ensures
        ({
            let b = a.materialized_role(
                job_id,
                ReadyModel::Logical { role, inputs, chain },
                now,
                ids,
            ).state;
            let job = b.jobs[job_id.0];
            let chosen = job.selections[role.name];
            match job.roles[role.name] {
                RoleStatusModel::Submitted(id) => id == ids[0] && match b.task_roles[id.0] {
                    BindingModel::Single { job_id: bound, role_name } => {
                        &&& bound == job_id
                        &&& role_name == role.name
                        &&& job.selections.contains_key(role.name)
                        &&& chosen.fusion is None
                        &&& exists|i: int|
                            0 <= i < role.implementations.len() && chosen.implementation == (
                            #[trigger] role.implementations[i]).name && waits_to_run(
                                b,
                                id,
                                role.implementations[i].task,
                                inputs,
                            )
                    },
                    BindingModel::FusedChain { job_id: bound, role_names } => {
                        &&& bound == job_id
                        &&& 2 <= role_names.len() <= chain.len()
                        &&& forall|i: int|
                            0 <= i < role_names.len() ==> #[trigger] role_names[i] == chain[i].name
                        &&& b.tasks.contains_key(id.0)
                        &&& b.tasks[id.0].status is Pending
                        &&& b.tasks[id.0].spec.pipeline matches Some(pipeline)
                        &&& pipeline.stages.len() == role_names.len()
                    },
                    _ => false,
                },
                RoleStatusModel::Ready => b.tasks == a.tasks,
                _ => false,
            }
        }),
{
    reveal(FabricModel::materialized_role);
    let context = a.context(now);
    let fusion = FusionModel {
        context,
        advisor: FusionAdvisor { minimum_saved_transfer_ms: Binary64::nearest_to(20) },
    };
    crate::chains::law_fusion_is_sound(fusion, chain, inputs);
    match crate::chains::best_fusion(fusion, chain, inputs) {
        Some(choice) => {
            let n = choice.implementations.len();
            let names = crate::fabric_model::names_of(chain, n);
            let all = crate::fusion::fused_choices(chain, n);
            let i = choose|i: int|
                {
                    &&& 0 <= i < all.len()
                    &&& (#[trigger] all[i]).names == choice.implementations
                    &&& choice.task == crate::fusion::fused_task(
                        all[i].tasks,
                        inputs,
                        all[i].requirements,
                        crate::shards::anonymous(),
                    )
                };
            lemma_stages_submitted(a.jobs[job_id.0], names, choice.named(ids[0]), n);
            crate::fusion_laws::law_fused_choices_take_one_of_each(chain, n, i);
            crate::fusion_laws::lemma_stage_per_task(all[i].tasks, inputs, n);
            assert(names[0] == role.name);
        },
        None => {
            crate::placement_laws::law_implementations_are_cheapest(context, role, inputs);
            if let Some(choice) = crate::planner::best_implementation(
                context,
                role,
                inputs,
                role.implementations.len(),
            ) {
                let i = choose|i: int| #[trigger]
                    crate::placement_laws::cheapest_implementation(
                        context,
                        role,
                        inputs,
                        role.implementations.len(),
                        i,
                        choice,
                    );
                law_templates_become_tasks(role.implementations[i].task, inputs, ids[0]);
                assert(choice.named(ids[0]).task == role.implementations[i].task.instantiated(inputs, ids[0]));
            }
        },
    }
}

pub(crate) proof fn lemma_stages_submitted(
    job: JobRecordModel,
    names: Seq<Seq<char>>,
    choice: crate::chains::FusionChoice,
    k: nat,
)
    requires
        k <= names.len(),
    ensures
        forall|i: int|
            0 <= i < k ==> job.with_stages(names, choice, k).roles[#[trigger] names[i]]
                == RoleStatusModel::Submitted(choice.task.id),
    decreases k,
{
    if k > 0 {
        lemma_stages_submitted(job, names, choice, (k - 1) as nat);
    }
}

/// A choice is one shard of several of a role: it is the work of one of the implementations on all that
/// the role is given, and knows which of how many it is.
pub open spec fn part_of(role: LogicalRoleModel, given: Seq<ObjectId>, j: int, count: u32, choice: ShardChoice) -> bool {
    &&& choice.index == j
    &&& choice.task.shard matches Some(shard)
    &&& shard.index == j
    &&& shard.count == count
    &&& exists|i: int|
        0 <= i < role.implementations.len() && choice.implementation == (
        #[trigger] role.implementations[i]).name && runs(choice.task, role.implementations[i].task, given)
}

proof fn lemma_chosen_shards_are_parts(
    context: ContextModel,
    role: LogicalRoleModel,
    given: Seq<ObjectId>,
    count: u32,
    policy: Option<AutoShardModel>,
    ready_ms: Binary64,
    availability: Map<u128, Binary64>,
    n: nat,
)
    requires
        n <= count,
    ensures
        crate::shards::chosen_shards(
            context,
            role,
            given,
            count,
            policy,
            ready_ms,
            availability,
            n,
        ) matches Some(plan) ==> plan.choices.len() == n && forall|j: int|
            0 <= j < n ==> part_of(role, given, j, count, #[trigger] plan.choices[j]),
    decreases n,
{
    if n > 0 {
        lemma_chosen_shards_are_parts(
            context,
            role,
            given,
            count,
            policy,
            ready_ms,
            availability,
            (n - 1) as nat,
        );
        if let Some(before) = crate::shards::chosen_shards(
            context,
            role,
            given,
            count,
            policy,
            ready_ms,
            availability,
            (n - 1) as nat,
        ) {
            let index = (n - 1) as u32;
            crate::shard_placement_laws::law_shards_are_the_best_offers(
                context,
                role,
                given,
                index,
                count,
                policy,
                ready_ms,
                before.availability,
            );
            if let Some(Some(choice)) = crate::shards::best_shard(
                context,
                role,
                given,
                index,
                count,
                policy,
                ready_ms,
                before.availability,
                role.implementations.len(),
            ) {
                let (i, x) = choose|i: int, x: int|
                    #![trigger crate::shard_placement_laws::is_offer(
                        context,
                        crate::shard_placement_laws::shard_by(context, role, given, choice.index, count, policy, i).unwrap(),
                        x,
                        ready_ms,
                        before.availability,
                        choice,
                    )]
                    0 <= i < role.implementations.len() && choice.implementation == role.implementations[i].name
                        && crate::shard_placement_laws::shard_by(
                        context,
                        role,
                        given,
                        choice.index,
                        count,
                        policy,
                        i,
                    ) is Some && crate::shard_placement_laws::is_offer(
                        context,
                        crate::shard_placement_laws::shard_by(context, role, given, choice.index, count, policy, i).unwrap(),
                        x,
                        ready_ms,
                        before.availability,
                        choice,
                    );
                law_shards_run_their_template(
                    role.implementations[i].task,
                    given,
                    index,
                    count,
                    policy,
                    context.objects,
                    crate::shards::anonymous(),
                );
                assert(choice.implementation == role.implementations[i].name && runs(
                    choice.task,
                    role.implementations[i].task,
                    given,
                ));
            }
        }
    }
}

proof fn lemma_best_count_are_parts(
    context: ContextModel,
    role: LogicalRoleModel,
    given: Seq<ObjectId>,
    policy: AutoShardModel,
    ready_ms: Binary64,
    availability: Map<u128, Binary64>,
    c: nat,
)
    requires
        c <= u32::MAX,
    ensures
        crate::shards::best_count(context, role, given, policy, ready_ms, availability, c) matches Some(plan)
            ==> plan.choices.len() <= c && forall|j: int|
            0 <= j < plan.choices.len() ==> part_of(
                role,
                given,
                j,
                plan.choices.len() as u32,
                #[trigger] plan.choices[j],
            ),
    decreases c,
{
    if c > 0 {
        lemma_best_count_are_parts(
            context,
            role,
            given,
            policy,
            ready_ms,
            availability,
            (c - 1) as nat,
        );
        lemma_chosen_shards_are_parts(
            context,
            role,
            given,
            c as u32,
            Some(policy),
            ready_ms,
            availability,
            c,
        );
    }
}

/// Divided work is done in parts that are numbered in order and know how many they are, each by one of
/// the implementations of the role on all that the role is given.
pub proof fn law_divided_work_is_done_in_parts(
    context: ContextModel,
    role: LogicalRoleModel,
    given: Seq<ObjectId>,
    ready_ms: Binary64,
    availability: Map<u128, Binary64>,
)
    ensures
        crate::shards::role_shards(context, role, given, ready_ms, availability) matches Some(plan)
            ==> plan.choices.len() <= u32::MAX && forall|j: int|
            0 <= j < plan.choices.len() ==> part_of(
                role,
                given,
                j,
                plan.choices.len() as u32,
                #[trigger] plan.choices[j],
            ),
{
    match role.shards {
        ShardPolicyModel::Fixed(count) => {
            lemma_chosen_shards_are_parts(
                context,
                role,
                given,
                count,
                None,
                ready_ms,
                availability,
                count as nat,
            );
        },
        ShardPolicyModel::Auto(policy) => {
            if let Some(units) = crate::shards::partition_units(role, policy.partition, context.objects) {
                lemma_best_count_are_parts(
                    context,
                    role,
                    given,
                    policy,
                    ready_ms,
                    availability,
                    crate::shards::shard_limit(policy, units) as nat,
                );
            }
        },
    }
}

/// A role that is divided is left ready where nothing can run it; otherwise it becomes as many tasks as
/// shards were chosen, which wait in their order under the identities given, and the role waits for
/// all of them. What is shown of a shard is what was chosen.
pub proof fn law_divided_roles_run_their_shards(
    a: FabricModel,
    job_id: JobId,
    role: LogicalRoleModel,
    inputs: Seq<ObjectId>,
    chain: Seq<LogicalRoleModel>,
    now: u64,
    ids: Seq<TaskId>,
)
    requires
        a.wf(),
        a.jobs.contains_key(job_id.0),
        a.jobs[job_id.0].roles.contains_key(role.name),
        role.shards != ShardPolicyModel::Fixed(1),
        a.materialized_role(job_id, ReadyModel::Logical { role, inputs, chain }, now, ids).answer is Ok,
    ensures
        ({
            let b = a.materialized_role(
                job_id,
                ReadyModel::Logical { role, inputs, chain },
                now,
                ids,
            ).state;
            let job = b.jobs[job_id.0];
            match job.roles[role.name] {
                RoleStatusModel::Ready => b.tasks == a.tasks,
                RoleStatusModel::Sharded(shards) => {
                    &&& role.shards matches ShardPolicyModel::Fixed(count) ==> shards.len() == count
                    &&& job.shards.contains_key(role.name)
                    &&& job.shards[role.name].len() == shards.len()
                    &&& forall|j: int|
                        0 <= j < shards.len() ==> {
                            let id = (#[trigger] shards[j]).task_id;
                            let shown = job.shards[role.name][j];
                            let task = b.tasks[id.0].spec;
                            &&& id == ids[j]
                            &&& shards[j].outputs is None
                            &&& b.tasks.contains_key(id.0)
                            &&& b.tasks[id.0].status is Pending
                            &&& task.id == id
                            &&& task.shard matches Some(part)
                            &&& part.index == j
                            &&& part.count == shards.len()
                            &&& shown.index == j
                            &&& shown.task_id == id
                            &&& shown.partition == part.partition
                            &&& exists|i: int|
                                0 <= i < role.implementations.len() && shown.implementation == (
                                #[trigger] role.implementations[i]).name && runs(
                                    task,
                                    role.implementations[i].task,
                                    inputs,
                                )
                            &&& b.task_roles[id.0] == (BindingModel::Shard {
                                job_id,
                                role_name: role.name,
                                index: j as usize,
                            })
                        }
                },
                _ => false,
            }
        }),
{
    reveal(FabricModel::materialized_role);
    let zero = Binary64 { bits: 0 };
    let none = Map::<u128, Binary64>::empty();
    law_divided_work_is_done_in_parts(a.context(now), role, inputs, zero, none);
    crate::shard_placement_laws::law_no_more_shards_than_admitted(a.context(now), role, inputs, zero, none);
    if let Some(plan) = crate::shards::role_shards(a.context(now), role, inputs, zero, none) {
        let named = crate::fabric_model::named_choices(plan.choices, ids);
        let outcome = a.attached_shards(job_id, role.name, named);
        let b = outcome.state;
        let shards = crate::fabric_model::shard_statuses(named);
        assert(b.jobs[job_id.0].roles[role.name] == RoleStatusModel::Sharded(shards));
        assert forall|j: int| 0 <= j < shards.len() implies {
            let id = (#[trigger] shards[j]).task_id;
            let task = b.tasks[id.0].spec;
            &&& id == ids[j]
            &&& b.tasks.contains_key(id.0)
            &&& b.tasks[id.0].status is Pending
            &&& task == named[j].task
            &&& b.task_roles[id.0] == (BindingModel::Shard { job_id, role_name: role.name, index: j as usize })
            &&& exists|i: int|
                0 <= i < role.implementations.len() && named[j].implementation == (
                #[trigger] role.implementations[i]).name && runs(task, role.implementations[i].task, inputs)
        } by {
            lemma_shards_are_submitted(a, job_id, role.name, named, 0, j);
            assert(part_of(role, inputs, j, plan.choices.len() as u32, plan.choices[j]));
            let i = choose|i: int|
                0 <= i < role.implementations.len() && plan.choices[j].implementation == (
                #[trigger] role.implementations[i]).name && runs(
                    plan.choices[j].task,
                    role.implementations[i].task,
                    inputs,
                );
            assert(runs(named[j].task, role.implementations[i].task, inputs));
            assert(named[j].implementation == role.implementations[i].name);
        }
    }
}

/// A level of a reduction is one reducer for each group of several objects, which runs the template of
/// the reduction on just that group; an object that stands alone is handed on. The role waits for all
/// of the groups, in their order.
pub proof fn law_levels_run_their_reducers(
    a: FabricModel,
    job_id: JobId,
    name: Seq<char>,
    reduction: ReductionModel,
    objects: Seq<ObjectId>,
    now: u64,
    ids: Seq<TaskId>,
)
    requires
        a.wf(),
        a.jobs.contains_key(job_id.0),
        a.jobs[job_id.0].roles.contains_key(name),
        reduction.max_fan_in > 0,
        a.materialized_role(job_id, ReadyModel::Reduction { name, reduction, objects }, now, ids).answer is Ok,
    ensures
        ({
            let b = a.materialized_role(
                job_id,
                ReadyModel::Reduction { name, reduction, objects },
                now,
                ids,
            ).state;
            &&& b.jobs[job_id.0].roles[name] matches RoleStatusModel::Reducing(groups)
            &&& groups.len() == a.next_groups(reduction, objects).len()
            &&& forall|j: int|
                0 <= j < groups.len() ==> {
                    let group = (#[trigger] groups[j]).inputs;
                    &&& group == a.next_groups(reduction, objects)[j]
                    &&& group.len() > 1 ==> {
                        &&& groups[j].outputs is None
                        &&& groups[j].task_id == Some(ids[j])
                        &&& waits_to_run(b, ids[j], reduction.task, group)
                        &&& b.task_roles[ids[j].0] == (BindingModel::Reducer {
                            job_id,
                            role_name: name,
                            index: j as usize,
                        })
                    }
                    &&& group.len() <= 1 ==> groups[j].task_id is None && groups[j].outputs == Some(group)
                }
        }),
{
    reveal(FabricModel::materialized_role);
    let groups = a.next_groups(reduction, objects);
    let statuses = crate::fabric_model::level_statuses(groups, ids);
    let b = a.attached_level(job_id, name, reduction.task, groups, ids).state;
    assert(b.jobs[job_id.0].roles[name] == RoleStatusModel::Reducing(statuses));
    assert forall|j: int| 0 <= j < groups.len() && (#[trigger] statuses[j]).inputs.len() > 1 implies waits_to_run(
        b,
        ids[j],
        reduction.task,
        groups[j],
    ) && b.task_roles[ids[j].0] == (BindingModel::Reducer { job_id, role_name: name, index: j as usize }) by {
        lemma_reducers_are_submitted(a, job_id, name, reduction.task, groups, ids, 0, j);
        law_templates_become_tasks(reduction.task, groups[j], ids[j]);
    }
}

}

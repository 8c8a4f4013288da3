//! What holds of turning the ready roles of a job into tasks more than once.

use vstd::prelude::*;

use crate::binary64::Binary64;
use crate::chains::FusionModel;
use crate::fabric_model::{FabricModel, JobRecordModel, Outcome, ReadyModel};
use crate::ids::{JobId, ObjectId, ResourceId, TaskId};
use crate::jobs::{CooperativeRoleModel, JobModel, LogicalJobModel, LogicalRoleModel};
use crate::scheduler::FusionAdvisor;
use crate::shards::ContextModel;
use crate::status::RoleStatusModel;
use crate::tasks::TaskModel;

verus! {

/// Tasks that are added, and changes of a job's roles, do not change what placement looks at.
proof fn lemma_context_kept(a: FabricModel, b: FabricModel, job_id: JobId, now: u64)
    requires
        crate::fabric_laws::extends(a, b, job_id),
    ensures
        b.context(now) == a.context(now),
{
    assert forall|r: ResourceId| #[trigger] a.busy(r, now) == b.busy(r, now) by {
        if a.busy(r, now) {
            let k = choose|k: u128| #[trigger] a.tasks.contains_key(k) && a.occupies(k, r, now);
            assert(b.tasks.contains_key(k) && b.occupies(k, r, now));
        }
        if b.busy(r, now) {
            let k = choose|k: u128| #[trigger] b.tasks.contains_key(k) && b.occupies(k, r, now);
            assert(a.tasks.contains_key(k) && a.occupies(k, r, now));
        }
    }
    let before = |k: u128| a.active(k, now) && !a.busy(a.resources[k].descriptor.id, now);
    let after = |k: u128| b.active(k, now) && !b.busy(b.resources[k].descriptor.id, now);
    assert(before =~= after);
    assert(a.idle_keys(now) == b.idle_keys(now));
    assert(a.descriptors(a.idle_keys(now)) =~= b.descriptors(b.idle_keys(now)));
}

proof fn lemma_unknown_inputs_stop_transfers(
    context: ContextModel,
    task: TaskModel,
    target: ResourceId,
    i: int,
    k: nat,
)
    requires
        0 <= i < k,
        !context.objects.contains_key(task.inputs[i].0),
    ensures
        crate::scheduler::transfer_of_inputs(task, target, context.objects, context.links, k) is None,
    decreases k,
{
    if i < k - 1 {
        lemma_unknown_inputs_stop_transfers(context, task, target, i, (k - 1) as nat);
    }
}

proof fn lemma_missing_input(context: ContextModel, task: TaskModel, i: int) -> (j: int)
    requires
        0 <= i,
        crate::scheduler::missing_from(task.inputs, context.objects, i) is Some,
    ensures
        i <= j < task.inputs.len(),
        !context.objects.contains_key(task.inputs[j].0),
    decreases task.inputs.len() - i,
{
    if !context.objects.contains_key(task.inputs[i].0) {
        i
    } else {
        lemma_missing_input(context, task, i + 1)
    }
}

proof fn lemma_none_is_cheapest(context: ContextModel, task: TaskModel, m: int, k: nat)
    requires
        0 <= m < k,
        crate::scheduler::cheapest(
            context.risk_multiplier,
            task,
            context.resources,
            context.objects,
            context.links,
            k,
        ) is None,
    ensures
        context.placed(task, context.resources[m]) is None,
    decreases k,
{
    if m < k - 1 {
        lemma_none_is_cheapest(context, task, m, (k - 1) as nat);
    }
}

/// A task for which no resource is chosen can be placed on none.
proof fn lemma_not_chosen(context: ContextModel, task: TaskModel, m: int)
    requires
        0 <= m < context.resources.len(),
        crate::planner::considered(context, task) is Err,
    ensures
        context.placed(task, context.resources[m]) is None,
{
    if crate::scheduler::missing_from(task.inputs, context.objects, 0) is Some {
        let j = lemma_missing_input(context, task, 0);
        lemma_unknown_inputs_stop_transfers(
            context,
            task,
            context.resources[m].id,
            j,
            task.inputs.len(),
        );
    } else {
        lemma_none_is_cheapest(context, task, m, context.resources.len());
    }
}

proof fn lemma_no_first_state_of_task(f: FusionModel, index: usize, task: TaskModel, m: int)
    requires
        crate::planner::considered(f.context, task) is Err,
    ensures
        crate::chains::first_over_resources(f, index, task, Seq::empty(), m) == Seq::<
            crate::chains::SeparateChainState,
        >::empty(),
    decreases f.context.resources.len() - m,
{
    if 0 <= m < f.context.resources.len() {
        lemma_not_chosen(f.context, task, m);
        lemma_no_first_state_of_task(f, index, task, m + 1);
    }
}

proof fn lemma_no_implementation(
    context: ContextModel,
    role: LogicalRoleModel,
    inputs: Seq<ObjectId>,
    i: int,
    k: nat,
)
    requires
        0 <= i < k,
        crate::planner::best_implementation(context, role, inputs, k) is None,
    ensures
        crate::planner::considered(
            context,
            role.implementations[i].task.instantiated(inputs, crate::shards::anonymous()),
        ) is Err,
    decreases k,
{
    if i < k - 1 {
        lemma_no_implementation(context, role, inputs, i, (k - 1) as nat);
    }
}

proof fn lemma_no_first_state(f: FusionModel, role: LogicalRoleModel, inputs: Seq<ObjectId>, k: int)
    requires
        crate::planner::best_implementation(f.context, role, inputs, role.implementations.len()) is None,
    ensures
        crate::chains::first_states(f, role, inputs, Seq::empty(), k).len() == 0,
    decreases role.implementations.len() - k,
{
    if 0 <= k < role.implementations.len() {
        lemma_no_implementation(f.context, role, inputs, k, role.implementations.len());
        lemma_no_first_state_of_task(
            f,
            k as usize,
            role.implementations[k].task.instantiated(inputs, crate::shards::anonymous()),
            0,
        );
        lemma_no_first_state(f, role, inputs, k + 1);
    }
}

/// A chain whose first role nothing can run is not fused.
proof fn lemma_no_fusion(f: FusionModel, chain: Seq<LogicalRoleModel>, inputs: Seq<ObjectId>)
    requires
        chain.len() > 0,
        crate::planner::best_implementation(
            f.context,
            chain[0],
            inputs,
            chain[0].implementations.len(),
        ) is None,
    ensures
        crate::chains::best_fusion(f, chain, inputs) is None,
{
    lemma_no_first_state(f, chain[0], inputs, 0);
}

/// What there is to do for the role of an index.
spec fn entry(definition: JobModel, statuses: Map<Seq<char>, RoleStatusModel>, p: int) -> Option<ReadyModel> {
    match definition {
        JobModel::Cooperative(spec) => {
            let role = spec.roles[p];
            if statuses.contains_key(role.name) && statuses[role.name] is Waiting {
                match crate::fabric_model::outputs_of(statuses, role.depends_on, role.depends_on.len()) {
                    Some(inputs) => Some(
                        ReadyModel::Cooperative { name: role.name, task: role.task, inputs },
                    ),
                    None => None,
                }
            } else {
                None
            }
        },
        JobModel::Logical(spec) => {
            let role = spec.roles[p];
            if statuses.contains_key(role.name) && (statuses[role.name] is Waiting
                || statuses[role.name] is Ready) {
                match crate::fabric_model::outputs_of(statuses, role.depends_on, role.depends_on.len()) {
                    Some(inputs) => Some(
                        ReadyModel::Logical {
                            role,
                            inputs,
                            chain: crate::fabric_model::chain_from(
                                spec,
                                statuses,
                                seq![role],
                                spec.roles.len(),
                            ),
                        },
                    ),
                    None => None,
                }
            } else if statuses.contains_key(role.name) && role.reduction is Some {
                match statuses[role.name] {
                    RoleStatusModel::Reducible(objects) => Some(
                        ReadyModel::Reduction {
                            name: role.name,
                            reduction: role.reduction.unwrap(),
                            objects,
                        },
                    ),
                    _ => None,
                }
            } else {
                None
            }
        },
    }
}

spec fn role_count(definition: JobModel) -> nat {
    match definition {
        JobModel::Cooperative(spec) => spec.roles.len(),
        JobModel::Logical(spec) => spec.roles.len(),
    }
}

spec fn role_name(definition: JobModel, p: int) -> Seq<char> {
    match definition {
        JobModel::Cooperative(spec) => spec.roles[p].name,
        JobModel::Logical(spec) => spec.roles[p].name,
    }
}

/// The roles from an index on for which there is something to do.
spec fn positions(definition: JobModel, statuses: Map<Seq<char>, RoleStatusModel>, i: int) -> Seq<int>
    decreases role_count(definition) - i,
{
    if i < 0 || i >= role_count(definition) {
        Seq::empty()
    } else {
        let rest = positions(definition, statuses, i + 1);
        if entry(definition, statuses, i) is Some {
            seq![i] + rest
        } else {
            rest
        }
    }
}

spec fn entries(definition: JobModel, statuses: Map<Seq<char>, RoleStatusModel>, i: int) -> Seq<ReadyModel> {
    let at = positions(definition, statuses, i);
    Seq::new(at.len(), |t: int| entry(definition, statuses, at[t]).unwrap())
}

proof fn lemma_cooperative_entries(
    definition: JobModel,
    roles: Seq<CooperativeRoleModel>,
    statuses: Map<Seq<char>, RoleStatusModel>,
    i: int,
)
    requires
        definition matches JobModel::Cooperative(spec) && spec.roles == roles,
        0 <= i,
    ensures
        crate::fabric_model::ready_cooperative(roles, statuses, i) == entries(definition, statuses, i),
    decreases roles.len() - i,
{
    if i < roles.len() {
        lemma_cooperative_entries(definition, roles, statuses, i + 1);
    }
    assert(crate::fabric_model::ready_cooperative(roles, statuses, i) =~= entries(definition, statuses, i));
}

proof fn lemma_logical_entries(
    definition: JobModel,
    job: LogicalJobModel,
    statuses: Map<Seq<char>, RoleStatusModel>,
    i: int,
)
    requires
        definition == JobModel::Logical(job),
        0 <= i,
    ensures
        crate::fabric_model::ready_logical(job, statuses, i) == entries(definition, statuses, i),
    decreases job.roles.len() - i,
{
    if i < job.roles.len() {
        lemma_logical_entries(definition, job, statuses, i + 1);
    }
    assert(crate::fabric_model::ready_logical(job, statuses, i) =~= entries(definition, statuses, i));
}

proof fn lemma_entries(job: JobRecordModel)
    ensures
        crate::fabric_model::ready_roles(job) == entries(job.definition, job.roles, 0),
{
    match job.definition {
        JobModel::Cooperative(spec) => {
            lemma_cooperative_entries(job.definition, spec.roles, job.roles, 0);
        },
        JobModel::Logical(spec) => {
            lemma_logical_entries(job.definition, spec, job.roles, 0);
        },
    }
}

proof fn lemma_positions(definition: JobModel, statuses: Map<Seq<char>, RoleStatusModel>, i: int)
    requires
        0 <= i,
    ensures
        forall|t: int|
            0 <= t < positions(definition, statuses, i).len() ==> i <= #[trigger] positions(
                definition,
                statuses,
                i,
            )[t] < role_count(definition) && entry(
                definition,
                statuses,
                positions(definition, statuses, i)[t],
            ) is Some,
        forall|t: int, u: int|
            0 <= t < u < positions(definition, statuses, i).len() ==> #[trigger] positions(
                definition,
                statuses,
                i,
            )[t] < #[trigger] positions(definition, statuses, i)[u],
        forall|p: int|
            i <= p < role_count(definition) && (#[trigger] entry(definition, statuses, p)) is Some
                ==> positions(definition, statuses, i).contains(p),
    decreases role_count(definition) - i,
{
    if i < role_count(definition) {
        lemma_positions(definition, statuses, i + 1);
        let all = positions(definition, statuses, i);
        let rest = positions(definition, statuses, i + 1);
        if entry(definition, statuses, i) is Some {
            assert(all.len() == rest.len() + 1);
            assert(all[0] == i);
            assert forall|t: int| 1 <= t < all.len() implies #[trigger] all[t] == rest[t - 1] by {}
            assert forall|p: int|
                i <= p < role_count(definition) && (#[trigger] entry(definition, statuses, p)) is Some implies all.contains(
                p,
            ) by {
                if p == i {
                    assert(all[0] == p);
                } else {
                    let t = choose|t: int| 0 <= t < rest.len() && rest[t] == p;
                    assert(all[t + 1] == p);
                }
            }
        }
    }
}

/// A role that tasks have been submitted for, and that has not ended.
spec fn working(status: RoleStatusModel) -> bool {
    status is Submitted || status is Sharded || status is Reducing
}

/// No resource can run a role, as one task or in shards.
spec fn unplaceable(context: ContextModel, role: LogicalRoleModel, inputs: Seq<ObjectId>) -> bool {
    if !role.shards.single() {
        crate::shards::role_shards(context, role, inputs, Binary64 { bits: 0 }, Map::empty()) is None
    } else {
        crate::planner::best_implementation(context, role, inputs, role.implementations.len()) is None
    }
}

spec fn claimed(ready: ReadyModel) -> Seq<char> {
    match ready {
        ReadyModel::Cooperative { name, .. } => name,
        ReadyModel::Logical { role, .. } => role.name,
        ReadyModel::Reduction { name, .. } => name,
    }
}

spec fn starts_its_chain(ready: ReadyModel) -> bool {
    ready matches ReadyModel::Logical { role, chain, .. } ==> chain.len() > 0 && chain[0] == role
}

/// What can come of a ready role: it is at work, or there is nothing that could be done.
spec fn handled(context: ContextModel, ready: ReadyModel, status: RoleStatusModel) -> bool {
    working(status) || match ready {
        ReadyModel::Cooperative { .. } => false,
        ReadyModel::Logical { role, inputs, .. } => status is Ready && unplaceable(context, role, inputs),
        ReadyModel::Reduction { reduction, .. } => reduction.max_fan_in == 0,
    }
}

/// How the roles of a job may change: a role is set to work, or one that waited is known to be ready.
spec fn progressed(
    before: Map<Seq<char>, RoleStatusModel>,
    after: Map<Seq<char>, RoleStatusModel>,
) -> bool {
    forall|name: Seq<char>| #[trigger]
        after.contains_key(name) ==> before.contains_key(name) && (after[name] == before[name] || working(
            after[name],
        ) || (after[name] is Ready && (before[name] is Waiting || before[name] is Ready)))
}

proof fn lemma_stages_at_work(
    job: JobRecordModel,
    names: Seq<Seq<char>>,
    choice: crate::chains::FusionChoice,
    k: nat,
)
    requires
        k <= names.len(),
        forall|i: int| 0 <= i < names.len() ==> job.roles.contains_key(#[trigger] names[i]),
    ensures
        forall|name: Seq<char>| #[trigger]
            job.with_stages(names, choice, k).roles.contains_key(name) ==> job.roles.contains_key(name) && (
            job.with_stages(names, choice, k).roles[name] == job.roles[name] || job.with_stages(
                names,
                choice,
                k,
            ).roles[name] is Submitted),
        forall|i: int|
            0 <= i < k ==> job.with_stages(names, choice, k).roles.contains_key(#[trigger] names[i])
                && job.with_stages(names, choice, k).roles[names[i]] is Submitted,
    decreases k,
{
    if k > 0 {
        lemma_stages_at_work(job, names, choice, (k - 1) as nat);
    }
}

/// What one ready role comes to: it is handled, and no role but it and those fused with it changes.
proof fn lemma_one_role(s: FabricModel, job_id: JobId, ready: ReadyModel, now: u64, ids: Seq<TaskId>)
    requires
        crate::fabric_model::placeable(s, job_id, ready),
        starts_its_chain(ready),
        s.materialized_role(job_id, ready, now, ids).answer is Ok,
    ensures
        ({
            let before = s.jobs[job_id.0].roles;
            let after = s.materialized_role(job_id, ready, now, ids).state.jobs[job_id.0].roles;
            &&& after.contains_key(claimed(ready))
            &&& handled(s.context(now), ready, after[claimed(ready)])
            &&& forall|name: Seq<char>| #[trigger]
                after.contains_key(name) ==> before.contains_key(name) && (after[name] == before[name]
                    || working(after[name]) || (name == claimed(ready) && after[name] is Ready
                    && ready is Logical))
        }),
{
    reveal(FabricModel::materialized_role);
    let before = s.jobs[job_id.0].roles;
    let context = s.context(now);
    let one = s.materialized_role(job_id, ready, now, ids);
    match ready {
        ReadyModel::Cooperative { name, task, inputs } => {},
        ReadyModel::Logical { role, inputs, chain } => {
            if role.shards.single() {
                let fusion = FusionModel {
                    context,
                    advisor: FusionAdvisor { minimum_saved_transfer_ms: Binary64::nearest_to(20) },
                };
                crate::chains::law_fusion_is_sound(fusion, chain, inputs);
                if let Some(choice) = crate::chains::best_fusion(fusion, chain, inputs) {
                    let names = crate::fabric_model::names_of(chain, choice.implementations.len());
                    assert forall|i: int| 0 <= i < names.len() implies before.contains_key(
                        #[trigger] names[i],
                    ) by {
                        assert(names[i] == chain[i].name);
                    }
                    lemma_stages_at_work(s.jobs[job_id.0], names, choice.named(ids[0]), names.len());
                    assert(names[0] == role.name);
                }
            }
        },
        ReadyModel::Reduction { name, reduction, objects } => {},
    }
}

proof fn lemma_chain_starts(
    job: LogicalJobModel,
    statuses: Map<Seq<char>, RoleStatusModel>,
    chain: Seq<LogicalRoleModel>,
    limit: nat,
)
    requires
        chain.len() > 0,
    ensures
        crate::fabric_model::chain_from(job, statuses, chain, limit).len() > 0,
        crate::fabric_model::chain_from(job, statuses, chain, limit)[0] == chain[0],
    decreases limit,
{
    if limit > 0 {
        if let Some(i) = crate::fabric_model::next_in_chain(job, statuses, chain.last()) {
            lemma_chain_starts(job, statuses, chain.push(job.roles[i]), (limit - 1) as nat);
        }
    }
}

/// What there is to do for a role speaks of that role, which has neither ended nor tasks at work.
proof fn lemma_entry(definition: JobModel, statuses: Map<Seq<char>, RoleStatusModel>, p: int)
    requires
        entry(definition, statuses, p) is Some,
    ensures
        ({
            let ready = entry(definition, statuses, p).unwrap();
            let name = role_name(definition, p);
            &&& claimed(ready) == name
            &&& starts_its_chain(ready)
            &&& statuses.contains_key(name)
            &&& !working(statuses[name])
            &&& ready is Logical ==> statuses[name] is Waiting || statuses[name] is Ready
        }),
{
    if let JobModel::Logical(spec) = definition {
        lemma_chain_starts(spec, statuses, seq![spec.roles[p]], spec.roles.len());
    }
}

/// The names of the roles of a job differ.
spec fn named_apart(definition: JobModel) -> bool {
    forall|p: int, q: int|
        0 <= p < q < role_count(definition) ==> #[trigger] role_name(definition, p) != #[trigger] role_name(
            definition,
            q,
        )
}

proof fn lemma_named_apart(definition: JobModel)
    requires
        crate::fabric_model::sound_graph(definition),
    ensures
        named_apart(definition),
{
    reveal(crate::fabric_model::sound_graph);
    let graph = crate::fabric_model::role_graph_of(definition);
    assert forall|p: int, q: int| 0 <= p < q < role_count(definition) implies #[trigger] role_name(
        definition,
        p,
    ) != #[trigger] role_name(definition, q) by {
        assert(graph[p].name == role_name(definition, p));
        assert(graph[q].name == role_name(definition, q));
    }
}

/// The first ready roles are handled.
spec fn handled_before(
    context: ContextModel,
    ready: Seq<ReadyModel>,
    statuses: Map<Seq<char>, RoleStatusModel>,
    i: int,
) -> bool {
    forall|t: int|
        0 <= t < i ==> statuses.contains_key(claimed(#[trigger] ready[t])) && handled(
            context,
            ready[t],
            statuses[claimed(ready[t])],
        )
}

proof fn lemma_every_role(
    definition: JobModel,
    statuses: Map<Seq<char>, RoleStatusModel>,
    s: FabricModel,
    job_id: JobId,
    i: int,
    now: u64,
    ids: Seq<Seq<TaskId>>,
)
    requires
        s.wf(),
        named_apart(definition),
        0 <= i <= entries(definition, statuses, 0).len(),
        forall|t: int|
            0 <= t < entries(definition, statuses, 0).len() ==> crate::fabric_model::placeable(
                s,
                job_id,
                #[trigger] entries(definition, statuses, 0)[t],
            ) && crate::fabric_laws::claims_idle(statuses, entries(definition, statuses, 0)[t]),
        progressed(statuses, s.jobs[job_id.0].roles),
        handled_before(
            s.context(now),
            entries(definition, statuses, 0),
            s.jobs[job_id.0].roles,
            i,
        ),
        s.materialized_from(job_id, entries(definition, statuses, 0), i, now, ids).answer is Ok,
    ensures
        ({
            let b = s.materialized_from(job_id, entries(definition, statuses, 0), i, now, ids).state;
            &&& b.context(now) == s.context(now)
            &&& progressed(statuses, b.jobs[job_id.0].roles)
            &&& handled_before(
                s.context(now),
                entries(definition, statuses, 0),
                b.jobs[job_id.0].roles,
                entries(definition, statuses, 0).len() as int,
            )
        }),
    decreases entries(definition, statuses, 0).len() - i,
{
    let at = positions(definition, statuses, 0);
    let ready = entries(definition, statuses, 0);
    if i < ready.len() {
        lemma_positions(definition, statuses, 0);
        let one = s.materialized_role(job_id, ready[i], now, ids[i]);
        assert(0 <= at[i] < role_count(definition));
        lemma_entry(definition, statuses, at[i]);
        lemma_one_role(s, job_id, ready[i], now, ids[i]);
        crate::fabric_model::lemma_wf_materialized_role(s, job_id, ready[i], now, ids[i]);
        crate::fabric_laws::lemma_materialized_role_extends(statuses, s, job_id, ready[i], now, ids[i]);
        lemma_context_kept(s, one.state, job_id, now);
        let before = s.jobs[job_id.0].roles;
        let after = one.state.jobs[job_id.0].roles;
        assert forall|t: int| 0 <= t < ready.len() implies crate::fabric_model::placeable(
            one.state,
            job_id,
            #[trigger] ready[t],
        ) && crate::fabric_laws::claims_idle(statuses, ready[t]) by {
            crate::fabric_model::lemma_placeable_kept(s, one.state, job_id, ready[t]);
        }
        assert(progressed(statuses, after)) by {
            assert forall|name: Seq<char>| #[trigger] after.contains_key(name) implies statuses.contains_key(
                name,
            ) && (after[name] == statuses[name] || working(after[name]) || (after[name] is Ready && (
            statuses[name] is Waiting || statuses[name] is Ready))) by {
                assert(before.contains_key(name));
            }
        }
        assert forall|t: int| 0 <= t < i + 1 implies after.contains_key(claimed(#[trigger] ready[t]))
            && handled(s.context(now), ready[t], after[claimed(ready[t])]) by {
            if t < i {
                assert(0 <= at[t] < at[i]);
                lemma_entry(definition, statuses, at[t]);
                assert(role_name(definition, at[t]) != role_name(definition, at[i]));
                assert(crate::fabric_model::placeable(one.state, job_id, ready[t]));
                assert(after.contains_key(claimed(ready[t])));
            }
        }
        lemma_every_role(definition, statuses, one.state, job_id, i + 1, now, ids);
    }
}

proof fn lemma_outputs_were_there(
    a: Map<Seq<char>, RoleStatusModel>,
    b: Map<Seq<char>, RoleStatusModel>,
    dependencies: Seq<Seq<char>>,
    k: nat,
)
    requires
        progressed(a, b),
        crate::fabric_model::outputs_of(b, dependencies, k) is Some,
    ensures
        crate::fabric_model::outputs_of(a, dependencies, k) == crate::fabric_model::outputs_of(
            b,
            dependencies,
            k,
        ),
    decreases k,
{
    if k > 0 {
        lemma_outputs_were_there(a, b, dependencies, (k - 1) as nat);
        assert(b.contains_key(dependencies[k - 1]));
    }
}

/// The same is to be done for a role, but for the chain that may follow it.
spec fn same_work(one: ReadyModel, other: ReadyModel) -> bool {
    match (one, other) {
        (
            ReadyModel::Cooperative { name, .. },
            ReadyModel::Cooperative { name: again, .. },
        ) => name == again,
        (
            ReadyModel::Logical { role, inputs, .. },
            ReadyModel::Logical { role: again, inputs: more, .. },
        ) => role == again && inputs == more,
        (
            ReadyModel::Reduction { name, reduction, .. },
            ReadyModel::Reduction { name: again, reduction: more, .. },
        ) => name == again && reduction == more,
        _ => false,
    }
}

/// No role becomes ready as others are set to work.
proof fn lemma_entry_before(
    definition: JobModel,
    a: Map<Seq<char>, RoleStatusModel>,
    b: Map<Seq<char>, RoleStatusModel>,
    p: int,
)
    requires
        progressed(a, b),
        entry(definition, b, p) is Some,
    ensures
        entry(definition, a, p) is Some,
        same_work(entry(definition, a, p).unwrap(), entry(definition, b, p).unwrap()),
{
    let name = role_name(definition, p);
    assert(b.contains_key(name));
    match definition {
        JobModel::Cooperative(spec) => {
            let role = spec.roles[p];
            lemma_outputs_were_there(a, b, role.depends_on, role.depends_on.len());
        },
        JobModel::Logical(spec) => {
            let role = spec.roles[p];
            if b[name] is Waiting || b[name] is Ready {
                lemma_outputs_were_there(a, b, role.depends_on, role.depends_on.len());
            }
        },
    }
}

/// A ready role for which nothing can be done changes nothing.
proof fn lemma_inert(b: FabricModel, job_id: JobId, ready: ReadyModel, now: u64, ids: Seq<TaskId>)
    requires
        b.jobs.contains_key(job_id.0),
        b.jobs[job_id.0].roles.contains_key(claimed(ready)),
        starts_its_chain(ready),
        handled(b.context(now), ready, b.jobs[job_id.0].roles[claimed(ready)]),
        !working(b.jobs[job_id.0].roles[claimed(ready)]),
    ensures
        b.materialized_role(job_id, ready, now, ids) == (Outcome::<()> { state: b, answer: Ok(()) }),
{
    reveal(FabricModel::materialized_role);
    if let ReadyModel::Logical { role, inputs, chain } = ready {
        let job = b.jobs[job_id.0];
        assert(job.roles.insert(role.name, RoleStatusModel::Ready) =~= job.roles);
        assert(b.jobs.insert(job_id.0, job) =~= b.jobs);
        assert(b.with_job(job_id, job.with_role(role.name, RoleStatusModel::Ready)) == b);
        if role.shards.single() {
            let fusion = FusionModel {
                context: b.context(now),
                advisor: FusionAdvisor { minimum_saved_transfer_ms: Binary64::nearest_to(20) },
            };
            lemma_no_fusion(fusion, chain, inputs);
        }
    }
}

proof fn lemma_all_inert(
    b: FabricModel,
    job_id: JobId,
    ready: Seq<ReadyModel>,
    i: int,
    now: u64,
    ids: Seq<Seq<TaskId>>,
)
    requires
        0 <= i,
        forall|t: int|
            0 <= t < ready.len() ==> b.materialized_role(job_id, #[trigger] ready[t], now, ids[t]) == (
            Outcome::<()> { state: b, answer: Ok(()) }),
    ensures
        b.materialized_from(job_id, ready, i, now, ids) == (Outcome::<()> { state: b, answer: Ok(()) }),
    decreases ready.len() - i,
{
    if i < ready.len() {
        assert(b.materialized_role(job_id, ready[i], now, ids[i]).state == b);
        lemma_all_inert(b, job_id, ready, i + 1, now, ids);
    }
}

/// Nothing is left to do for a job: of its ready roles none can be set to work.
spec fn exhausted(b: FabricModel, job_id: JobId, now: u64) -> bool {
    let job = b.jobs[job_id.0];
    &&& b.jobs.contains_key(job_id.0)
    &&& forall|p: int|
        0 <= p < role_count(job.definition) && (#[trigger] entry(job.definition, job.roles, p)) is Some
            ==> handled(
            b.context(now),
            entry(job.definition, job.roles, p).unwrap(),
            job.roles[role_name(job.definition, p)],
        )
}

/// Once the ready roles of a job have been turned into tasks, nothing is left to do for it.
proof fn lemma_materialized_jobs_are_exhausted(a: FabricModel, job_id: JobId, now: u64, ids: Seq<Seq<TaskId>>)
    requires
        a.wf(),
        a.materialized(job_id, now, ids).answer is Ok,
    ensures
        exhausted(a.materialized(job_id, now, ids).state, job_id, now),
{
    let definition = a.jobs[job_id.0].definition;
    let statuses = a.jobs[job_id.0].roles;
    let ready = entries(definition, statuses, 0);
    let b = a.materialized(job_id, now, ids).state;
    lemma_entries(a.jobs[job_id.0]);
    lemma_named_apart(definition);
    crate::fabric_model::lemma_ready_roles_placeable(a, job_id);
    match definition {
        JobModel::Cooperative(spec) => {
            crate::fabric_laws::lemma_ready_cooperative_unstarted(spec.roles, statuses, 0);
        },
        JobModel::Logical(spec) => {
            crate::fabric_laws::lemma_ready_logical_unstarted(spec, statuses, 0);
        },
    }
    crate::fabric_laws::law_materialization_only_adds(a, job_id, now, ids);
    lemma_every_role(definition, statuses, a, job_id, 0, now, ids);
    let then = b.jobs[job_id.0].roles;
    lemma_positions(definition, statuses, 0);
    assert forall|p: int|
        0 <= p < role_count(definition) && (#[trigger] entry(definition, then, p)) is Some implies handled(
        b.context(now),
        entry(definition, then, p).unwrap(),
        then[role_name(definition, p)],
    ) by {
        lemma_entry(definition, then, p);
        lemma_entry_before(definition, statuses, then, p);
        lemma_entry(definition, statuses, p);
        assert(positions(definition, statuses, 0).contains(p));
        let u = choose|u: int|
            0 <= u < positions(definition, statuses, 0).len() && positions(definition, statuses, 0)[u] == p;
        assert(ready[u] == entry(definition, statuses, p).unwrap());
        assert(handled(a.context(now), ready[u], then[claimed(ready[u])]));
    }
}

/// Where nothing is left to do for a job, turning its ready roles into tasks changes nothing.
proof fn lemma_exhausted_jobs_rest(b: FabricModel, job_id: JobId, now: u64, ids: Seq<Seq<TaskId>>)
    requires
        exhausted(b, job_id, now),
    ensures
        b.materialized(job_id, now, ids) == (Outcome::<()> { state: b, answer: Ok(()) }),
{
    let definition = b.jobs[job_id.0].definition;
    let statuses = b.jobs[job_id.0].roles;
    let ready = entries(definition, statuses, 0);
    lemma_entries(b.jobs[job_id.0]);
    lemma_positions(definition, statuses, 0);
    assert forall|t: int| 0 <= t < ready.len() implies b.materialized_role(
        job_id,
        #[trigger] ready[t],
        now,
        ids[t],
    ) == (Outcome::<()> { state: b, answer: Ok(()) }) by {
        let p = positions(definition, statuses, 0)[t];
        assert(entry(definition, statuses, p) is Some);
        lemma_entry(definition, statuses, p);
        lemma_inert(b, job_id, ready[t], now, ids[t]);
    }
    lemma_all_inert(b, job_id, ready, 0, now, ids);
}

/// Turning the ready roles of a job into tasks once more, at the same time and with nothing else in
/// between, adds no task and changes no role: what could be set to work is at work, and what could
/// not be placed still cannot.
pub proof fn law_materializing_again_changes_nothing(
    a: FabricModel,
    job_id: JobId,
    now: u64,
    ids: Seq<Seq<TaskId>>,
    more: Seq<Seq<TaskId>>,
)
    requires
        a.wf(),
        a.materialized(job_id, now, ids).answer is Ok,
    ensures
        ({
            let b = a.materialized(job_id, now, ids).state;
            b.materialized(job_id, now, more) == (Outcome::<()> { state: b, answer: Ok(()) })
        }),
{
    lemma_materialized_jobs_are_exhausted(a, job_id, now, ids);
    lemma_exhausted_jobs_rest(a.materialized(job_id, now, ids).state, job_id, now, more);
}

proof fn lemma_refreshed_jobs_are_exhausted(
    s: FabricModel,
    jobs: Seq<u128>,
    i: int,
    now: u64,
    ids: Seq<Seq<Seq<TaskId>>>,
)
    requires
        s.wf(),
        0 <= i <= jobs.len(),
        forall|t: int| 0 <= t < i ==> exhausted(s, JobId(#[trigger] jobs[t]), now),
        s.refreshed_from(jobs, i, now, ids).answer is Ok,
    ensures
        ({
            let b = s.refreshed_from(jobs, i, now, ids).state;
            &&& forall|t: int| 0 <= t < jobs.len() ==> exhausted(b, JobId(#[trigger] jobs[t]), now)
            &&& b.jobs.dom() == s.jobs.dom()
        }),
    decreases jobs.len() - i,
{
    if i < jobs.len() {
        let job_id = JobId(jobs[i]);
        let next = s.materialized(job_id, now, ids[i]).state;
        lemma_materialized_jobs_are_exhausted(s, job_id, now, ids[i]);
        crate::fabric_laws::law_materialization_only_adds(s, job_id, now, ids[i]);
        lemma_context_kept(s, next, job_id, now);
        assert forall|t: int| 0 <= t < i + 1 implies exhausted(next, JobId(#[trigger] jobs[t]), now) by {
            if jobs[t] != jobs[i] {
                assert(exhausted(s, JobId(jobs[t]), now));
                assert(next.jobs[jobs[t]] == s.jobs[jobs[t]]);
            }
        }
        lemma_refreshed_jobs_are_exhausted(next, jobs, i + 1, now, ids);
        assert(next.jobs.dom() =~= s.jobs.dom());
    }
}

proof fn lemma_exhausted_fabrics_rest(
    b: FabricModel,
    jobs: Seq<u128>,
    i: int,
    now: u64,
    ids: Seq<Seq<Seq<TaskId>>>,
)
    requires
        0 <= i,
        forall|t: int| 0 <= t < jobs.len() ==> exhausted(b, JobId(#[trigger] jobs[t]), now),
    ensures
        b.refreshed_from(jobs, i, now, ids) == (Outcome::<()> { state: b, answer: Ok(()) }),
    decreases jobs.len() - i,
{
    if i < jobs.len() {
        assert(exhausted(b, JobId(jobs[i]), now));
        lemma_exhausted_jobs_rest(b, JobId(jobs[i]), now, ids[i]);
        lemma_exhausted_fabrics_rest(b, jobs, i + 1, now, ids);
    }
}

/// Looking again for roles that can be worked on, at the same time and with nothing else in between,
/// finds none: no task is added, and no role of any job changes.
pub proof fn law_refreshing_again_changes_nothing(
    a: FabricModel,
    now: u64,
    ids: Seq<Seq<Seq<TaskId>>>,
    more: Seq<Seq<Seq<TaskId>>>,
)
    requires
        a.wf(),
        a.refreshed(now, ids).answer is Ok,
    ensures
        ({
            let b = a.refreshed(now, ids).state;
            b.refreshed(now, more) == (Outcome::<()> { state: b, answer: Ok(()) })
        }),
{
    let jobs = crate::collections::sorted(a.jobs.dom());
    lemma_refreshed_jobs_are_exhausted(a, jobs, 0, now, ids);
    lemma_exhausted_fabrics_rest(a.refreshed(now, ids).state, jobs, 0, now, more);
}

/// The roles that a ready role may set to work: itself, and those that may be fused with it.
spec fn claims(ready: ReadyModel, name: Seq<char>) -> bool {
    name == claimed(ready) || (ready matches ReadyModel::Logical { chain, .. } && exists|c: int|
        0 <= c < chain.len() && (#[trigger] chain[c]).name == name)
}

/// The roles of two chains that begin with different ready roles differ.
proof fn lemma_chains_are_apart(
    job: LogicalJobModel,
    statuses: Map<Seq<char>, RoleStatusModel>,
    one: Seq<LogicalRoleModel>,
    other: Seq<LogicalRoleModel>,
    i: int,
    j: int,
)
    requires
        named_apart(JobModel::Logical(job)),
        0 <= i < one.len(),
        0 <= j < other.len(),
        job.roles.contains(one[0]),
        job.roles.contains(other[0]),
        one[0].name != other[0].name,
        crate::fabric_laws::unstarted(statuses, one[0].name),
        crate::fabric_laws::unstarted(statuses, other[0].name),
        crate::fabric_laws::dependencies_complete(statuses, one[0].depends_on),
        crate::fabric_laws::dependencies_complete(statuses, other[0].depends_on),
        forall|c: int|
            1 <= c < one.len() ==> crate::role_laws::follows(job, statuses, one[c - 1], #[trigger] one[c]),
        forall|c: int|
            1 <= c < other.len() ==> crate::role_laws::follows(job, statuses, other[c - 1], #[trigger] other[c]),
    ensures
        one[i].name != other[j].name,
    decreases i + j,
{
    if one[i].name == other[j].name {
        if i > 0 {
            assert(crate::role_laws::follows(job, statuses, one[i - 1], one[i]));
        }
        if j > 0 {
            assert(crate::role_laws::follows(job, statuses, other[j - 1], other[j]));
        }
        let x = choose|x: int| 0 <= x < job.roles.len() && job.roles[x] == one[i];
        let y = choose|y: int| 0 <= y < job.roles.len() && job.roles[y] == other[j];
        assert(role_name(JobModel::Logical(job), x) == role_name(JobModel::Logical(job), y));
        assert(x == y);
        if i == 0 && j > 0 {
            assert(statuses[one[0].depends_on[0]] is Completed);
            if j > 1 {
                assert(crate::role_laws::follows(job, statuses, other[j - 2], other[j - 1]));
            }
        } else if i > 0 && j == 0 {
            assert(statuses[other[0].depends_on[0]] is Completed);
            if i > 1 {
                assert(crate::role_laws::follows(job, statuses, one[i - 2], one[i - 1]));
            }
        } else if i > 0 && j > 0 {
            lemma_chains_are_apart(job, statuses, one, other, i - 1, j - 1);
        }
    }
}

/// What a ready role is: not started and with all its dependencies complete, or between two levels of
/// its reduction.
proof fn lemma_entry_is_ready(definition: JobModel, statuses: Map<Seq<char>, RoleStatusModel>, p: int)
    requires
        0 <= p < role_count(definition),
        entry(definition, statuses, p) is Some,
    ensures
        match (definition, entry(definition, statuses, p).unwrap()) {
            (JobModel::Cooperative(spec), ReadyModel::Cooperative { name, .. }) => {
                &&& name == spec.roles[p].name
                &&& crate::fabric_laws::dependencies_complete(statuses, spec.roles[p].depends_on)
            },
            (JobModel::Logical(spec), ReadyModel::Logical { role, chain, .. }) => {
                &&& role == spec.roles[p]
                &&& crate::fabric_laws::unstarted(statuses, role.name)
                &&& crate::fabric_laws::dependencies_complete(statuses, role.depends_on)
                &&& chain.len() > 0
                &&& chain[0] == role
                &&& forall|c: int|
                    1 <= c < chain.len() ==> crate::role_laws::follows(
                        spec,
                        statuses,
                        chain[c - 1],
                        #[trigger] chain[c],
                    )
            },
            (JobModel::Logical(spec), ReadyModel::Reduction { name, .. }) => {
                &&& name == spec.roles[p].name
                &&& statuses.contains_key(name)
                &&& statuses[name] is Reducible
            },
            _ => false,
        },
{
    match definition {
        JobModel::Cooperative(spec) => {
            let names = spec.roles[p].depends_on;
            crate::fabric_laws::lemma_outputs_of(statuses, names, names.len());
        },
        JobModel::Logical(spec) => {
            let names = spec.roles[p].depends_on;
            crate::fabric_laws::lemma_outputs_of(statuses, names, names.len());
            crate::role_laws::lemma_chain_follows(spec, statuses, seq![spec.roles[p]], spec.roles.len());
        },
    }
}

proof fn lemma_claims_are_apart(
    definition: JobModel,
    statuses: Map<Seq<char>, RoleStatusModel>,
    p: int,
    q: int,
    name: Seq<char>,
)
    requires
        named_apart(definition),
        0 <= p < q < role_count(definition),
        entry(definition, statuses, p) is Some,
        entry(definition, statuses, q) is Some,
        claims(entry(definition, statuses, p).unwrap(), name),
    ensures
        !claims(entry(definition, statuses, q).unwrap(), name),
{
    let one = entry(definition, statuses, p).unwrap();
    let other = entry(definition, statuses, q).unwrap();
    lemma_entry(definition, statuses, p);
    lemma_entry(definition, statuses, q);
    lemma_entry_is_ready(definition, statuses, p);
    lemma_entry_is_ready(definition, statuses, q);
    assert(role_name(definition, p) != role_name(definition, q));
    if claims(other, name) {
        if let JobModel::Logical(spec) = definition {
            let a = match one {
                ReadyModel::Logical { chain, .. } => chain,
                _ => Seq::empty(),
            };
            let b = match other {
                ReadyModel::Logical { chain, .. } => chain,
                _ => Seq::empty(),
            };
            let i = if one is Logical && name != claimed(one) {
                choose|c: int| 0 <= c < a.len() && (#[trigger] a[c]).name == name
            } else {
                0
            };
            let j = if other is Logical && name != claimed(other) {
                choose|c: int| 0 <= c < b.len() && (#[trigger] b[c]).name == name
            } else {
                0
            };
            if i > 0 {
                assert(crate::role_laws::follows(spec, statuses, a[i - 1], a[i]));
            }
            if j > 0 {
                assert(crate::role_laws::follows(spec, statuses, b[j - 1], b[j]));
            }
            if one is Logical && other is Logical {
                assert(spec.roles[p] == a[0] && spec.roles[q] == b[0]);
                lemma_chains_are_apart(spec, statuses, a, b, i, j);
            }
        }
    }
}

proof fn lemma_stages_touch(
    job: JobRecordModel,
    names: Seq<Seq<char>>,
    choice: crate::chains::FusionChoice,
    k: nat,
    name: Seq<char>,
)
    requires
        k <= names.len(),
        forall|i: int| 0 <= i < k ==> #[trigger] names[i] != name,
    ensures
        job.with_stages(names, choice, k).roles.contains_key(name) <==> job.roles.contains_key(name),
        job.with_stages(names, choice, k).roles[name] == job.roles[name],
    decreases k,
{
    if k > 0 {
        lemma_stages_touch(job, names, choice, (k - 1) as nat, name);
        assert(names[k - 1] != name);
    }
}

/// A ready role that is set to work leaves every role alone that it does not claim.
proof fn lemma_others_are_left_alone(
    s: FabricModel,
    job_id: JobId,
    ready: ReadyModel,
    now: u64,
    ids: Seq<TaskId>,
    name: Seq<char>,
)
    requires
        s.wf(),
        crate::fabric_model::placeable(s, job_id, ready),
        starts_its_chain(ready),
        !claims(ready, name),
    ensures
        ({
            let before = s.jobs[job_id.0].roles;
            let after = s.materialized_role(job_id, ready, now, ids).state.jobs[job_id.0].roles;
            &&& after.contains_key(name) <==> before.contains_key(name)
            &&& after[name] == before[name]
        }),
{
    reveal(FabricModel::materialized_role);
    match ready {
        ReadyModel::Logical { role, inputs, chain } => {
            let context = s.context(now);
            if role.shards.single() {
                let fusion = FusionModel {
                    context,
                    advisor: FusionAdvisor { minimum_saved_transfer_ms: Binary64::nearest_to(20) },
                };
                crate::chains::law_fusion_is_sound(fusion, chain, inputs);
                if let Some(choice) = crate::chains::best_fusion(fusion, chain, inputs) {
                    let names = crate::fabric_model::names_of(chain, choice.implementations.len());
                    assert forall|i: int| 0 <= i < names.len() implies #[trigger] names[i] != name by {
                        assert(chain[i].name == names[i]);
                    }
                    lemma_stages_touch(
                        s.jobs[job_id.0],
                        names,
                        choice.named(ids[0]),
                        names.len(),
                        name,
                    );
                }
            } else if let Some(plan) = crate::shards::role_shards(
                context,
                role,
                inputs,
                Binary64 { bits: 0 },
                Map::empty(),
            ) {
                crate::fabric_laws::lemma_shards_submitted_extends(
                    s,
                    job_id,
                    role.name,
                    crate::fabric_model::named_choices(plan.choices, ids),
                    0,
                );
            }
        },
        ReadyModel::Reduction { name: own, reduction, objects } => {
            crate::fabric_laws::lemma_reducers_submitted_extends(
                s,
                job_id,
                own,
                reduction.task,
                s.next_groups(reduction, objects),
                ids,
                0,
            );
        },
        _ => {},
    }
}

/// The dependencies of a role are complete, or are stages of the same task as the role itself.
pub open spec fn begun_after(
    roles: Map<Seq<char>, RoleStatusModel>,
    name: Seq<char>,
    dependencies: Seq<Seq<char>>,
) -> bool {
    forall|d: int|
        0 <= d < dependencies.len() ==> roles.contains_key(#[trigger] dependencies[d]) && (
        roles[dependencies[d]] is Completed || (roles[name] is Submitted && roles[dependencies[d]]
            == roles[name]))
}

spec fn depends_of(definition: JobModel, p: int) -> Seq<Seq<char>> {
    match definition {
        JobModel::Cooperative(spec) => spec.roles[p].depends_on,
        JobModel::Logical(spec) => spec.roles[p].depends_on,
    }
}

/// What a ready role sets to work has its dependencies complete, or set to work by the same task.
proof fn lemma_claimed_begin_after(
    definition: JobModel,
    statuses: Map<Seq<char>, RoleStatusModel>,
    s: FabricModel,
    job_id: JobId,
    p: int,
    now: u64,
    ids: Seq<TaskId>,
    q: int,
)
    requires
        s.wf(),
        named_apart(definition),
        0 <= p < role_count(definition),
        0 <= q < role_count(definition),
        entry(definition, statuses, p) is Some,
        crate::fabric_model::placeable(s, job_id, entry(definition, statuses, p).unwrap()),
        crate::fabric_laws::claims_idle(statuses, entry(definition, statuses, p).unwrap()),
        claims(entry(definition, statuses, p).unwrap(), role_name(definition, q)),
        crate::fabric_laws::unstarted(statuses, role_name(definition, q)),
        crate::fabric_laws::unstarted(s.jobs[job_id.0].roles, role_name(definition, q)),
        forall|name: Seq<char>| #[trigger]
            statuses.contains_key(name) && statuses[name] is Completed ==> s.jobs[job_id.0].roles.contains_key(
                name,
            ) && s.jobs[job_id.0].roles[name] == statuses[name],
    ensures
        ({
            let ready = entry(definition, statuses, p).unwrap();
            let after = s.materialized_role(job_id, ready, now, ids).state.jobs[job_id.0].roles;
            let name = role_name(definition, q);
            crate::fabric_laws::unstarted(after, name) || begun_after(after, name, depends_of(definition, q))
        }),
{
    let ready = entry(definition, statuses, p).unwrap();
    let name = role_name(definition, q);
    let before = s.jobs[job_id.0].roles;
    let after = s.materialized_role(job_id, ready, now, ids).state.jobs[job_id.0].roles;
    lemma_entry(definition, statuses, p);
    lemma_entry_is_ready(definition, statuses, p);
    crate::fabric_laws::lemma_materialized_role_extends(statuses, s, job_id, ready, now, ids);
    if name == claimed(ready) {
        assert(q == p) by {
            if q < p {
                assert(role_name(definition, q) != role_name(definition, p));
            } else if p < q {
                assert(role_name(definition, p) != role_name(definition, q));
            }
        }
        let dependencies = depends_of(definition, q);
        assert forall|d: int| 0 <= d < dependencies.len() implies after.contains_key(
            #[trigger] dependencies[d],
        ) && after[dependencies[d]] is Completed by {
            assert(statuses.contains_key(dependencies[d]) && statuses[dependencies[d]] is Completed);
            assert(before.contains_key(dependencies[d]));
        }
    } else if let ReadyModel::Logical { role, inputs, chain } = ready {
        assert forall|c: int| 1 <= c < chain.len() implies #[trigger] linked(
            definition->Logical_0,
            statuses,
            chain,
            c,
        ) by {
            assert(crate::role_laws::follows(definition->Logical_0, statuses, chain[c - 1], chain[c]));
        }
        lemma_stages_begin_together(
            definition->Logical_0,
            statuses,
            s,
            job_id,
            role,
            inputs,
            chain,
            now,
            ids,
            q,
        );
    }
}

/// The roles are named apart, so a role of a name is one.
proof fn lemma_same_role(job: LogicalJobModel, x: int, y: int)
    requires
        named_apart(JobModel::Logical(job)),
        0 <= x < job.roles.len(),
        0 <= y < job.roles.len(),
        job.roles[x].name == job.roles[y].name,
    ensures
        x == y,
{
    let definition = JobModel::Logical(job);
    if x < y {
        assert(role_name(definition, x) != role_name(definition, y));
    } else if y < x {
        assert(role_name(definition, y) != role_name(definition, x));
    }
}

/// A role of a chain follows the one before it.
spec fn linked(
    job: LogicalJobModel,
    statuses: Map<Seq<char>, RoleStatusModel>,
    chain: Seq<LogicalRoleModel>,
    c: int,
) -> bool {
    crate::role_laws::follows(job, statuses, chain[c - 1], chain[c])
}

/// Of the stages of a fused task each but the first depends on the one before it.
proof fn lemma_stage_pairs(
    spec: LogicalJobModel,
    statuses: Map<Seq<char>, RoleStatusModel>,
    job: JobRecordModel,
    chain: Seq<LogicalRoleModel>,
    made: crate::chains::FusionChoice,
    n: nat,
    q: int,
)
    requires
        named_apart(JobModel::Logical(spec)),
        0 <= q < spec.roles.len(),
        0 < n <= chain.len(),
        spec.roles[q].name != chain[0].name,
        forall|c: int| 1 <= c < chain.len() ==> #[trigger] linked(spec, statuses, chain, c),
        crate::fabric_laws::unstarted(job.roles, spec.roles[q].name),
    ensures
        ({
            let after = job.with_stages(crate::fabric_model::names_of(chain, n), made, n).roles;
            let name = spec.roles[q].name;
            crate::fabric_laws::unstarted(after, name) || begun_after(after, name, spec.roles[q].depends_on)
        }),
{
    let name = spec.roles[q].name;
    let names = crate::fabric_model::names_of(chain, n);
    let after = job.with_stages(names, made, n).roles;
    if exists|i: int| 0 <= i < names.len() && #[trigger] names[i] == name {
        let i = choose|i: int| 0 <= i < names.len() && #[trigger] names[i] == name;
        assert(chain[i].name == name);
        assert(linked(spec, statuses, chain, i));
        let y = choose|y: int| 0 <= y < spec.roles.len() && spec.roles[y] == chain[i];
        lemma_same_role(spec, y, q);
        assert(names[i - 1] == chain[i - 1].name);
        crate::role_laws::lemma_stages_submitted(job, names, made, n);
        lemma_stages_at_work_keys(job, names, made, n);
        assert(after[names[i]] == after[names[i - 1]]);
        assert(after.contains_key(names[i - 1]));
    } else {
        lemma_stages_touch(job, names, made, n, name);
    }
}

/// A role that is fused with the one before it begins with it.
proof fn lemma_stages_begin_together(
    spec: LogicalJobModel,
    statuses: Map<Seq<char>, RoleStatusModel>,
    s: FabricModel,
    job_id: JobId,
    role: LogicalRoleModel,
    inputs: Seq<ObjectId>,
    chain: Seq<LogicalRoleModel>,
    now: u64,
    ids: Seq<TaskId>,
    q: int,
)
    requires
        s.wf(),
        named_apart(JobModel::Logical(spec)),
        0 <= q < spec.roles.len(),
        crate::fabric_model::placeable(s, job_id, ReadyModel::Logical { role, inputs, chain }),
        chain.len() > 0,
        chain[0] == role,
        spec.roles[q].name != role.name,
        forall|c: int| 1 <= c < chain.len() ==> #[trigger] linked(spec, statuses, chain, c),
        crate::fabric_laws::unstarted(s.jobs[job_id.0].roles, spec.roles[q].name),
    ensures
        ({
            let after = s.materialized_role(
                job_id,
                ReadyModel::Logical { role, inputs, chain },
                now,
                ids,
            ).state.jobs[job_id.0].roles;
            let name = spec.roles[q].name;
            crate::fabric_laws::unstarted(after, name) || begun_after(after, name, spec.roles[q].depends_on)
        }),
{
    reveal(FabricModel::materialized_role);
    let name = spec.roles[q].name;
    let context = s.context(now);
    let ready = ReadyModel::Logical { role, inputs, chain };
    let after = s.materialized_role(job_id, ready, now, ids).state.jobs[job_id.0].roles;
    if role.shards.single() {
        let fusion = FusionModel {
            context,
            advisor: FusionAdvisor { minimum_saved_transfer_ms: Binary64::nearest_to(20) },
        };
        crate::chains::law_fusion_is_sound(fusion, chain, inputs);
        if let Some(choice) = crate::chains::best_fusion(fusion, chain, inputs) {
            let names = crate::fabric_model::names_of(chain, choice.implementations.len());
            let made = choice.named(ids[0]);
            if s.submitted(made.task).answer is Ok {
                lemma_stage_pairs(spec, statuses, s.jobs[job_id.0], chain, made, names.len(), q);
            }
        }
    } else if let Some(plan) = crate::shards::role_shards(
        context,
        role,
        inputs,
        Binary64 { bits: 0 },
        Map::empty(),
    ) {
        crate::fabric_laws::lemma_shards_submitted_extends(
            s,
            job_id,
            role.name,
            crate::fabric_model::named_choices(plan.choices, ids),
            0,
        );
    }
}

proof fn lemma_stages_at_work_keys(
    job: JobRecordModel,
    names: Seq<Seq<char>>,
    choice: crate::chains::FusionChoice,
    k: nat,
)
    requires
        k <= names.len(),
    ensures
        forall|i: int|
            0 <= i < k ==> job.with_stages(names, choice, k).roles.contains_key(#[trigger] names[i]),
    decreases k,
{
    if k > 0 {
        lemma_stages_at_work_keys(job, names, choice, (k - 1) as nat);
    }
}

/// Of the roles of a job, those that are not as they were have been claimed by one of the first ready
/// roles; and those of them that have begun did so after their dependencies.
spec fn orderly_so_far(
    definition: JobModel,
    statuses: Map<Seq<char>, RoleStatusModel>,
    now: Map<Seq<char>, RoleStatusModel>,
    i: int,
) -> bool {
    let ready = entries(definition, statuses, 0);
    &&& forall|name: Seq<char>| #[trigger]
        statuses.contains_key(name) ==> now.contains_key(name) && (now[name] == statuses[name] || exists|t: int|
            0 <= t < i && claims(#[trigger] ready[t], name))
    &&& forall|q: int|
        0 <= q < role_count(definition) && crate::fabric_laws::unstarted(
            statuses,
            #[trigger] role_name(definition, q),
        ) && !crate::fabric_laws::unstarted(now, role_name(definition, q)) ==> begun_after(
            now,
            role_name(definition, q),
            depends_of(definition, q),
        )
}

proof fn lemma_one_more_is_orderly(
    definition: JobModel,
    statuses: Map<Seq<char>, RoleStatusModel>,
    s: FabricModel,
    job_id: JobId,
    i: int,
    now: u64,
    ids: Seq<TaskId>,
)
    requires
        s.wf(),
        named_apart(definition),
        0 <= i < entries(definition, statuses, 0).len(),
        crate::fabric_model::placeable(s, job_id, entries(definition, statuses, 0)[i]),
        crate::fabric_laws::claims_idle(statuses, entries(definition, statuses, 0)[i]),
        orderly_so_far(definition, statuses, s.jobs[job_id.0].roles, i),
        forall|q: int, d: int|
            #![trigger depends_of(definition, q)[d]]
            0 <= q < role_count(definition) && 0 <= d < depends_of(definition, q).len()
                ==> statuses.contains_key(depends_of(definition, q)[d]),
    ensures
        orderly_so_far(
            definition,
            statuses,
            s.materialized_role(
                job_id,
                entries(definition, statuses, 0)[i],
                now,
                ids,
            ).state.jobs[job_id.0].roles,
            i + 1,
        ),
{
    let at = positions(definition, statuses, 0);
    let ready = entries(definition, statuses, 0);
    let before = s.jobs[job_id.0].roles;
    let after = s.materialized_role(job_id, ready[i], now, ids).state.jobs[job_id.0].roles;
    lemma_positions(definition, statuses, 0);
    assert(0 <= at[i] < role_count(definition));
    lemma_entry(definition, statuses, at[i]);
    crate::fabric_model::lemma_wf_materialized_role(s, job_id, ready[i], now, ids);
    assert forall|name: Seq<char>| !#[trigger] claims(ready[i], name) implies (after.contains_key(name)
        <==> before.contains_key(name)) && after[name] == before[name] by {
        lemma_others_are_left_alone(s, job_id, ready[i], now, ids, name);
    }
    assert forall|name: Seq<char>| #[trigger] claims(ready[i], name) && statuses.contains_key(name) implies before[name]
        == statuses[name] by {
        if before[name] != statuses[name] {
            let t = choose|t: int| 0 <= t < i && claims(#[trigger] ready[t], name);
            assert(0 <= at[t] < at[i]);
            lemma_claims_are_apart(definition, statuses, at[t], at[i], name);
        }
    }
    assert forall|name: Seq<char>| #[trigger] statuses.contains_key(name) implies after.contains_key(name) && (
    after[name] == statuses[name] || exists|t: int| 0 <= t < i + 1 && claims(#[trigger] ready[t], name)) by {
        assert(before.contains_key(name));
        assert(before.dom().contains(name) && after.dom().contains(name));
        if !claims(ready[i], name) && before[name] != statuses[name] {
            let t = choose|t: int| 0 <= t < i && claims(#[trigger] ready[t], name);
            assert(0 <= t < i + 1 && claims(ready[t], name));
        }
    }
    assert forall|q: int|
        0 <= q < role_count(definition) && crate::fabric_laws::unstarted(
            statuses,
            #[trigger] role_name(definition, q),
        ) && !crate::fabric_laws::unstarted(after, role_name(definition, q)) implies begun_after(
        after,
        role_name(definition, q),
        depends_of(definition, q),
    ) by {
        let name = role_name(definition, q);
        if claims(ready[i], name) {
            assert(before.contains_key(name));
            assert forall|other: Seq<char>| #[trigger]
                statuses.contains_key(other) && statuses[other] is Completed implies before.contains_key(other)
                && before[other] == statuses[other] by {
                lemma_completed_stays(definition, statuses, before, i, other);
            }
            lemma_claimed_begin_after(definition, statuses, s, job_id, at[i], now, ids, q);
        } else {
            let dependencies = depends_of(definition, q);
            assert(begun_after(before, name, dependencies));
            assert forall|d: int| 0 <= d < dependencies.len() implies after.contains_key(
                #[trigger] dependencies[d],
            ) && (after[dependencies[d]] is Completed || (after[name] is Submitted && after[dependencies[d]]
                == after[name])) by {
                let other = dependencies[d];
                assert(statuses.contains_key(depends_of(definition, q)[d]));
                if claims(ready[i], other) {
                    assert(before[other] == statuses[other]);
                    assert(crate::fabric_laws::idle(statuses, other));
                }
            }
        }
    }
}

proof fn lemma_completed_stays(
    definition: JobModel,
    statuses: Map<Seq<char>, RoleStatusModel>,
    now: Map<Seq<char>, RoleStatusModel>,
    i: int,
    name: Seq<char>,
)
    requires
        0 <= i <= entries(definition, statuses, 0).len(),
        orderly_so_far(definition, statuses, now, i),
        statuses.contains_key(name),
        statuses[name] is Completed,
    ensures
        now.contains_key(name),
        now[name] == statuses[name],
{
    let at = positions(definition, statuses, 0);
    let ready = entries(definition, statuses, 0);
    lemma_positions(definition, statuses, 0);
    if now[name] != statuses[name] {
        let t = choose|t: int| 0 <= t < i && claims(#[trigger] ready[t], name);
        assert(0 <= at[t] < role_count(definition));
        lemma_entry(definition, statuses, at[t]);
        lemma_entry_is_ready(definition, statuses, at[t]);
        if let ReadyModel::Logical { chain, .. } = ready[t] {
            if name != claimed(ready[t]) {
                let c = choose|c: int| 0 <= c < chain.len() && (#[trigger] chain[c]).name == name;
                assert(crate::role_laws::follows(definition->Logical_0, statuses, chain[c - 1], chain[c]));
            }
        }
    }
}

proof fn lemma_every_step_is_orderly(
    definition: JobModel,
    statuses: Map<Seq<char>, RoleStatusModel>,
    s: FabricModel,
    job_id: JobId,
    i: int,
    now: u64,
    ids: Seq<Seq<TaskId>>,
)
    requires
        s.wf(),
        named_apart(definition),
        0 <= i <= entries(definition, statuses, 0).len(),
        forall|t: int|
            0 <= t < entries(definition, statuses, 0).len() ==> crate::fabric_model::placeable(
                s,
                job_id,
                #[trigger] entries(definition, statuses, 0)[t],
            ) && crate::fabric_laws::claims_idle(statuses, entries(definition, statuses, 0)[t]),
        orderly_so_far(definition, statuses, s.jobs[job_id.0].roles, i),
        forall|q: int, d: int|
            #![trigger depends_of(definition, q)[d]]
            0 <= q < role_count(definition) && 0 <= d < depends_of(definition, q).len()
                ==> statuses.contains_key(depends_of(definition, q)[d]),
    ensures
        exists|j: int|
            #[trigger] orderly_so_far(
                definition,
                statuses,
                s.materialized_from(
                    job_id,
                    entries(definition, statuses, 0),
                    i,
                    now,
                    ids,
                ).state.jobs[job_id.0].roles,
                j,
            ),
    decreases entries(definition, statuses, 0).len() - i,
{
    let ready = entries(definition, statuses, 0);
    if i < ready.len() {
        let one = s.materialized_role(job_id, ready[i], now, ids[i]);
        lemma_one_more_is_orderly(definition, statuses, s, job_id, i, now, ids[i]);
        if one.answer is Ok {
            crate::fabric_model::lemma_wf_materialized_role(s, job_id, ready[i], now, ids[i]);
            assert forall|t: int| 0 <= t < ready.len() implies crate::fabric_model::placeable(
                one.state,
                job_id,
                #[trigger] ready[t],
            ) && crate::fabric_laws::claims_idle(statuses, ready[t]) by {
                crate::fabric_model::lemma_placeable_kept(s, one.state, job_id, ready[t]);
            }
            lemma_every_step_is_orderly(definition, statuses, one.state, job_id, i + 1, now, ids);
        } else {
            assert(orderly_so_far(definition, statuses, one.state.jobs[job_id.0].roles, i + 1));
        }
    }
}

/// No role is set to work before its dependencies: when ready roles are turned into tasks, a role that
/// had not started either still has not, or has each of its dependencies complete, or set to work as a
/// stage of the same task.
pub proof fn law_work_begins_after_its_dependencies(
    a: FabricModel,
    job_id: JobId,
    now: u64,
    ids: Seq<Seq<TaskId>>,
    p: int,
)
    requires
        a.wf(),
        a.jobs.contains_key(job_id.0),
        0 <= p < crate::fabric_model::role_graph_of(a.jobs[job_id.0].definition).len(),
    ensures
        ({
            let role = crate::fabric_model::role_graph_of(a.jobs[job_id.0].definition)[p];
            let before = a.jobs[job_id.0].roles;
            let after = a.materialized(job_id, now, ids).state.jobs[job_id.0].roles;
            before[role.name] is Waiting || before[role.name] is Ready ==> after[role.name] is Waiting
                || after[role.name] is Ready || begun_after(after, role.name, role.depends_on)
        }),
{
    let definition = a.jobs[job_id.0].definition;
    let statuses = a.jobs[job_id.0].roles;
    let graph = crate::fabric_model::role_graph_of(definition);
    lemma_entries(a.jobs[job_id.0]);
    lemma_named_apart(definition);
    crate::fabric_model::lemma_ready_roles_placeable(a, job_id);
    match definition {
        JobModel::Cooperative(spec) => {
            crate::fabric_laws::lemma_ready_cooperative_unstarted(spec.roles, statuses, 0);
        },
        JobModel::Logical(spec) => {
            crate::fabric_laws::lemma_ready_logical_unstarted(spec, statuses, 0);
        },
    }
    assert forall|q: int, d: int|
        #![trigger depends_of(definition, q)[d]]
        0 <= q < role_count(definition) && 0 <= d < depends_of(definition, q).len() implies statuses.contains_key(
        depends_of(definition, q)[d],
    ) by {
        reveal(crate::fabric_model::sound_graph);
        assert(graph[q].depends_on[d] == depends_of(definition, q)[d]);
        assert(crate::role_graph::named(graph, graph[q].depends_on[d]));
        let j = choose|j: int| 0 <= j < graph.len() && (#[trigger] graph[j]).name == graph[q].depends_on[d];
        assert(statuses.contains_key(graph[j].name));
    }
    lemma_every_step_is_orderly(definition, statuses, a, job_id, 0, now, ids);
    assert(graph[p].name == role_name(definition, p));
    assert(graph[p].depends_on == depends_of(definition, p));
    assert(statuses.contains_key(graph[p].name));
}

/// Nothing that can go on is left waiting: once the ready roles of a job have been turned into tasks, a
/// role that still waits has a dependency that is not complete.
pub proof fn law_nothing_that_can_go_on_waits(
    a: FabricModel,
    job_id: JobId,
    now: u64,
    ids: Seq<Seq<TaskId>>,
    p: int,
)
    requires
        a.wf(),
        a.materialized(job_id, now, ids).answer is Ok,
        0 <= p < crate::fabric_model::role_graph_of(a.jobs[job_id.0].definition).len(),
    ensures
        ({
            let role = crate::fabric_model::role_graph_of(a.jobs[job_id.0].definition)[p];
            let after = a.materialized(job_id, now, ids).state.jobs[job_id.0].roles;
            after.contains_key(role.name) && after[role.name] is Waiting ==> exists|d: int|
                0 <= d < role.depends_on.len() && !(after.contains_key(#[trigger] role.depends_on[d])
                    && after[role.depends_on[d]] is Completed)
        }),
{
    let definition = a.jobs[job_id.0].definition;
    let role = crate::fabric_model::role_graph_of(definition)[p];
    let b = a.materialized(job_id, now, ids).state;
    let after = b.jobs[job_id.0].roles;
    lemma_materialized_jobs_are_exhausted(a, job_id, now, ids);
    crate::fabric_laws::law_materialization_only_adds(a, job_id, now, ids);
    crate::role_laws::law_inputs_need_every_dependency(after, role.depends_on);
    if after.contains_key(role.name) && after[role.name] is Waiting {
        assert(entry(definition, after, p) is None) by {
            if entry(definition, after, p) is Some {
                assert(role_name(definition, p) == role.name);
                assert(handled(b.context(now), entry(definition, after, p).unwrap(), after[role.name]));
            }
        }
    }
}

}

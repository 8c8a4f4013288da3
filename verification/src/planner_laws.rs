//! What holds of plans: in which order roles are planned, what each of them is predicted to take and to
//! put out, and when a job is predicted to be done.

use vstd::prelude::*;

use crate::binary64::Binary64;
use crate::ids::ObjectId;
use crate::jobs::{LogicalJobModel, LogicalRoleModel, ReductionModel};
use crate::objects::ObjectModel;
use crate::planner::SelectedModel;
use crate::reduction_plan::{PlannedReductionModel, TreeModel};
use crate::shards::{ContextModel, ShardChoice};

verus! {

/// What the dependencies of a role are predicted to put out follows one after the other in the order
/// in which the role names them: one more dependency adds its outputs at the end.
pub proof fn law_planned_inputs_follow_the_dependencies(
    selected: Map<Seq<char>, SelectedModel>,
    names: Seq<Seq<char>>,
    last: Seq<char>,
)
    requires
        selected.contains_key(last),
    ensures
        crate::planner::planned_inputs(selected, Seq::empty(), 0) == Seq::<ObjectId>::empty(),
        ({
            let before = crate::planner::planned_inputs(selected, names, names.len());
            let after = crate::planner::planned_inputs(selected, names.push(last), names.len() + 1);
            &&& after.len() == before.len() + selected[last].outputs.len()
            &&& forall|i: int| 0 <= i < before.len() ==> #[trigger] after[i] == before[i]
            &&& forall|i: int|
                0 <= i < selected[last].outputs.len() ==> #[trigger] selected[last].outputs[i] == after[before.len()
                    + i]
        }),
{
    lemma_planned_inputs_prefix(selected, names, last, names.len());
}

proof fn lemma_planned_inputs_prefix(
    selected: Map<Seq<char>, SelectedModel>,
    names: Seq<Seq<char>>,
    last: Seq<char>,
    k: nat,
)
    requires
        k <= names.len(),
    ensures
        crate::planner::planned_inputs(selected, names.push(last), k) == crate::planner::planned_inputs(
            selected,
            names,
            k,
        ),
    decreases k,
{
    if k > 0 {
        lemma_planned_inputs_prefix(selected, names, last, (k - 1) as nat);
    }
}

/// The time by which all of some planned roles are done is zero or the time by which one of them is;
/// and none of them is done later. It is when a role that depends on them is ready, and when a job with
/// these outputs is done.
pub proof fn law_the_last_role_decides(selected: Map<Seq<char>, SelectedModel>, names: Seq<Seq<char>>, k: nat)
    requires
        k <= names.len(),
        forall|i: int| 0 <= i < k ==> selected.contains_key(#[trigger] names[i]),
    ensures
        ({
            let end = crate::planner::planned_ready(selected, names, k);
            &&& !end.nan()
            &&& !end.less(Binary64 { bits: 0 })
            &&& forall|i: int| 0 <= i < k ==> !end.less(selected[#[trigger] names[i]].finish_ms)
            &&& end == (Binary64 { bits: 0 }) || exists|i: int|
                0 <= i < k && end == selected[#[trigger] names[i]].finish_ms
        }),
    decreases k,
{
    if k > 0 {
        law_the_last_role_decides(selected, names, (k - 1) as nat);
        assert(selected.contains_key(names[k - 1]));
        let before = crate::planner::planned_ready(selected, names, (k - 1) as nat);
        crate::binary64::lemma_maximum(before, selected[names[k - 1]].finish_ms);
        let end = crate::planner::planned_ready(selected, names, k);
        if end == before {
            if before != (Binary64 { bits: 0 }) {
                let i = choose|i: int| 0 <= i < k - 1 && before == selected[#[trigger] names[i]].finish_ms;
                assert(end == selected[names[i]].finish_ms);
            }
        } else {
            assert(end == selected[names[k - 1]].finish_ms);
        }
    }
}

/// A job is not predicted to be done before all of the shards and reducers of the roles are that it
/// declares as outputs.
pub proof fn law_makespans_cover_the_outputs(context: ContextModel, job: LogicalJobModel, o: int, i: int)
    requires
        0 <= o < job.outputs.len(),
        0 <= i < job.roles.len(),
        job.roles[i].name == job.outputs[o],
    ensures
        crate::planner::planned(context, job) matches Ok(plan) ==> {
            &&& !plan.estimated_makespan_ms.nan()
            &&& forall|t: int|
                0 <= t < crate::planner::placements(plan.roles[i]).len()
                    ==> !plan.estimated_makespan_ms.less(
                    (#[trigger] crate::planner::placements(plan.roles[i])[t]).finish_ms,
                )
        },
{
    crate::planner::lemma_makespan(context, job, o, i, -1);
    if let Ok(plan) = crate::planner::planned(context, job) {
        assert forall|t: int|
            0 <= t < crate::planner::placements(plan.roles[i]).len() implies !plan.estimated_makespan_ms.less(
            (#[trigger] crate::planner::placements(plan.roles[i])[t]).finish_ms,
        ) by {
            crate::planner::lemma_makespan(context, job, o, i, t);
        }
    }
}

/// A role that is planned is done when the last of its shards and reducers is, and not before it could
/// begin.
pub proof fn law_roles_are_done_with_their_last_work(
    role: LogicalRoleModel,
    ready_ms: Binary64,
    choices: Seq<ShardChoice>,
    tree: TreeModel,
)
    requires
        !ready_ms.nan(),
    ensures
        ({
            let done = crate::planner::settled(role, ready_ms, choices, tree);
            &&& done.planned.name == role.name
            &&& done.outputs == tree.left
            &&& done.planned.shards.len() == choices.len()
            &&& done.planned.reductions == tree.reductions
            &&& !done.finish_ms.less(ready_ms)
            &&& forall|i: int|
                0 <= i < choices.len() ==> !done.finish_ms.less(
                    (#[trigger] choices[i]).start_ms.sum(choices[i].cost.total_ms),
                )
            &&& forall|i: int|
                0 <= i < tree.reductions.len() ==> !done.finish_ms.less(
                    (#[trigger] tree.reductions[i]).placement.finish_ms,
                )
            &&& {
                ||| done.finish_ms == ready_ms
                ||| exists|i: int|
                    0 <= i < choices.len() && done.finish_ms == (#[trigger] choices[i]).start_ms.sum(
                        choices[i].cost.total_ms,
                    )
                ||| exists|i: int|
                    0 <= i < tree.reductions.len() && done.finish_ms == (
                    #[trigger] tree.reductions[i]).placement.finish_ms
            }
        }),
{
    crate::shard_placement_laws::law_the_last_shard_decides(choices, ready_ms, choices.len());
    let start = crate::shards::latest_finish(choices, ready_ms, choices.len());
    lemma_latest_reduction(tree.reductions, start, tree.reductions.len());
    let done = crate::planner::settled(role, ready_ms, choices, tree);
    if done.finish_ms == start && start != ready_ms {
        let i = choose|i: int|
            0 <= i < choices.len() && start == (#[trigger] choices[i]).start_ms.sum(choices[i].cost.total_ms);
        assert(done.finish_ms == choices[i].start_ms.sum(choices[i].cost.total_ms));
    }
}

proof fn lemma_latest_reduction(reductions: Seq<PlannedReductionModel>, start: Binary64, k: nat)
    requires
        !start.nan(),
        k <= reductions.len(),
    ensures
        ({
            let end = crate::reduction_plan::latest_reduction(reductions, start, k);
            &&& !end.nan()
            &&& start.at_most(end)
            &&& forall|i: int| 0 <= i < k ==> !end.less((#[trigger] reductions[i]).placement.finish_ms)
            &&& end == start || exists|i: int|
                0 <= i < k && end == (#[trigger] reductions[i]).placement.finish_ms
        }),
    decreases k,
{
    if k > 0 {
        lemma_latest_reduction(reductions, start, (k - 1) as nat);
        let before = crate::reduction_plan::latest_reduction(reductions, start, (k - 1) as nat);
        crate::binary64::lemma_maximum(before, reductions[k - 1].placement.finish_ms);
        let end = crate::reduction_plan::latest_reduction(reductions, start, k);
        if end == before {
            if before != start {
                let i = choose|i: int|
                    0 <= i < k - 1 && before == (#[trigger] reductions[i]).placement.finish_ms;
                assert(end == reductions[i].placement.finish_ms);
            }
        } else {
            assert(end == reductions[k - 1].placement.finish_ms);
        }
    }
}

/// What a plan shows of a shard is what was chosen for it: the resource, when it begins and is done,
/// and what its cost is made of.
pub proof fn law_plans_show_what_was_chosen(choice: ShardChoice)
    ensures
        ({
            let shown = crate::planner::planned_shard(choice);
            &&& shown.index == choice.index
            &&& shown.implementation == choice.implementation
            &&& shown.partition is Some ==> (choice.task.shard matches Some(shard) && shard.partition
                == shown.partition)
            &&& choice.task.shard matches Some(shard) ==> shown.partition == shard.partition
            &&& shown.placement.resource_id == choice.resource_id
            &&& shown.placement.start_ms == choice.start_ms
            &&& shown.placement.finish_ms == shown.placement.start_ms.sum(shown.placement.total_ms)
            &&& shown.placement.total_ms == choice.cost.total_ms
            &&& shown.placement.compute_ms == choice.cost.compute_ms
            &&& shown.placement.input_transfer_ms == choice.cost.input_transfer_ms
            &&& shown.placement.queue_ms == choice.cost.queue_ms
            &&& shown.placement.startup_ms == choice.cost.startup_ms
            &&& shown.placement.risk_penalty_ms == choice.cost.risk_penalty_ms
        }),
{
}

/// A role that can be planned: it is not planned yet, and all its dependencies are.
pub open spec fn may_be_planned(selected: Map<Seq<char>, SelectedModel>, role: LogicalRoleModel) -> bool {
    &&& !selected.contains_key(role.name)
    &&& forall|j: int|
        0 <= j < role.depends_on.len() ==> selected.contains_key(#[trigger] role.depends_on[j])
}

/// The role with the fewest places to go is planned first, and of equals the one that is named first;
/// it is one that can be planned. None is planned only where none can be.
pub proof fn law_the_most_constrained_role_is_planned_first(
    context: ContextModel,
    roles: Seq<LogicalRoleModel>,
    selected: Map<Seq<char>, SelectedModel>,
    n: nat,
)
    requires
        n <= roles.len(),
    ensures
        match crate::planner::next_role(context, roles, selected, n) {
            Some(i) => {
                &&& 0 <= i < n
                &&& may_be_planned(selected, roles[i])
                &&& forall|j: int|
                    0 <= j < n && may_be_planned(selected, #[trigger] roles[j]) ==> {
                        let here = crate::planner::candidates_of(context, roles[i], selected);
                        let there = crate::planner::candidates_of(context, roles[j], selected);
                        here <= there && (j < i ==> here < there)
                    }
            },
            None => forall|j: int| 0 <= j < n ==> !may_be_planned(selected, #[trigger] roles[j]),
        },
    decreases n,
{
    if n > 0 {
        law_the_most_constrained_role_is_planned_first(context, roles, selected, (n - 1) as nat);
        assert(may_be_planned(selected, roles[n - 1]) <==> crate::planner::plannable(selected, roles[n - 1]));
    }
}

/// The places to go of a role are the pairs of an implementation and a resource that can run it on what
/// the dependencies put out: one more resource is one more place just for each implementation that it
/// can run.
pub proof fn law_places_are_counted(context: ContextModel, task: crate::tasks::TaskModel, m: nat)
    requires
        m < context.resources.len(),
    ensures
        crate::planner::feasible_resources(context, task, 0) == 0,
        crate::planner::feasible_resources(context, task, (m + 1) as nat) == crate::planner::feasible_resources(
            context,
            task,
            m,
        ) + if crate::scheduler::placed(
            context.risk_multiplier,
            task,
            context.resources[m as int],
            context.objects,
            context.links,
        ) is Some {
            1int
        } else {
            0
        },
        crate::planner::feasible_resources(context, task, m) <= m,
    decreases m,
{
    if m > 0 {
        law_places_are_counted(context, task, (m - 1) as nat);
    }
}

/// Each shard is predicted to put out one object, at the resource where it runs, of the size that its
/// task states, when the shard is done; the objects follow in the order of the shards, and are new. No
/// object that is known changes.
pub proof fn law_shards_put_out_where_they_run(
    objects: Map<u128, ObjectModel>,
    mentioned: Seq<u128>,
    choices: Seq<ShardChoice>,
    k: nat,
)
    requires
        k <= choices.len(),
        objects.dom().len() + mentioned.len() + k < u128::MAX,
    ensures
        ({
            let r = crate::planner::predicted_outputs(objects, mentioned, choices, k);
            &&& r.outputs.len() == k
            &&& r.objects.dom().len() <= objects.dom().len() + k
            &&& forall|x: u128| #[trigger]
                objects.contains_key(x) ==> r.objects.contains_key(x) && r.objects[x] == objects[x]
            &&& forall|i: int|
                0 <= i < k ==> {
                    let id = (#[trigger] r.outputs[i]).0;
                    &&& !objects.contains_key(id)
                    &&& r.objects.contains_key(id)
                    &&& r.objects[id].locations == seq![choices[i].resource_id]
                    &&& r.objects[id].size_bytes == choices[i].task.cost.output_bytes
                    &&& r.ready.contains_key(id)
                    &&& r.ready[id] == choices[i].start_ms.sum(choices[i].cost.total_ms)
                }
        }),
    decreases k,
{
    if k > 0 {
        let m = (k - 1) as nat;
        law_shards_put_out_where_they_run(objects, mentioned, choices, m);
        let before = crate::planner::predicted_outputs(objects, mentioned, choices, m);
        let r = crate::planner::predicted_outputs(objects, mentioned, choices, k);
        let id = crate::chains::placeholder(before.objects, mentioned);
        crate::collections::lemma_identifiers_are_finite(before.objects.dom());
        assert(r.objects.dom() =~= before.objects.dom().insert(id.0));
        law_predicted_objects_are_new(before.objects, mentioned);
        assert forall|i: int| 0 <= i < k implies {
            let id = (#[trigger] r.outputs[i]).0;
            &&& !objects.contains_key(id)
            &&& r.objects.contains_key(id)
            &&& r.objects[id].locations == seq![choices[i].resource_id]
            &&& r.objects[id].size_bytes == choices[i].task.cost.output_bytes
            &&& r.ready.contains_key(id)
            &&& r.ready[id] == choices[i].start_ms.sum(choices[i].cost.total_ms)
        } by {
            if i < m {
                assert(r.outputs[i] == before.outputs[i]);
                assert(before.objects.contains_key(before.outputs[i].0));
            } else {
                assert(r.outputs[i] == id);
            }
        }
    }
}

/// An object that is only predicted has an identity that neither a known object has nor anything that
/// the job mentions.
pub proof fn law_predicted_objects_are_new(objects: Map<u128, ObjectModel>, mentioned: Seq<u128>)
    requires
        objects.dom().len() + mentioned.len() < u128::MAX,
    ensures
        !objects.contains_key(crate::chains::placeholder(objects, mentioned).0),
        !mentioned.contains(crate::chains::placeholder(objects, mentioned).0),
{
    let keys = crate::collections::sorted(objects.dom());
    crate::collections::lemma_sorted(objects.dom());
    keys.unique_seq_to_set();
    let used = keys + mentioned;
    crate::collections::lemma_least_absent(used);
    let id = crate::chains::placeholder(objects, mentioned).0;
    if objects.contains_key(id) {
        assert(keys.to_set().contains(id));
        let i = choose|i: int| 0 <= i < keys.len() && keys[i] == id;
        assert(used[i] == id);
    }
    if mentioned.contains(id) {
        let i = choose|i: int| 0 <= i < mentioned.len() && mentioned[i] == id;
        assert(used[keys.len() + i] == id);
    }
}

/// A reducer is planned as any work is: where it is done first. Its resource is taken until then, and
/// what it puts out is there then; it takes the place of what it was made of. An object that stands
/// alone is handed on.
pub proof fn law_reducers_go_where_they_are_done_first(
    context: ContextModel,
    mentioned: Seq<u128>,
    reduction: ReductionModel,
    start_ms: Binary64,
    group: Seq<ObjectId>,
    level: nat,
    index: nat,
    tree: TreeModel,
)
    ensures
        crate::reduction_plan::reduced_group(context, mentioned, reduction, start_ms, group, level, index, tree) matches Some(
            next,
        ) ==> {
            &&& group.len() <= 1 ==> next == (TreeModel { left: tree.left + group, ..tree })
            &&& group.len() > 1 ==> {
                let seen = ContextModel { objects: tree.objects, ..context };
                let task = reduction.task.instantiated(group, crate::shards::anonymous());
                let ready = crate::reduction_plan::inputs_ready(tree.ready, group, start_ms, group.len());
                let reducer = next.reductions.last();
                let id = next.left.last();
                &&& next.reductions.len() == tree.reductions.len() + 1
                &&& next.left.len() == tree.left.len() + 1
                &&& forall|i: int| 0 <= i < tree.left.len() ==> #[trigger] next.left[i] == tree.left[i]
                &&& reducer.level == level
                &&& reducer.group == index
                &&& reducer.implementation == reduction.name
                &&& reducer.inputs == group.len()
                &&& reducer.placement.start_ms == crate::shard_placement_laws::earliest(
                    ready,
                    tree.availability,
                    reducer.placement.resource_id,
                )
                &&& reducer.placement.finish_ms == reducer.placement.start_ms.sum(reducer.placement.total_ms)
                &&& next.availability == tree.availability.insert(
                    reducer.placement.resource_id.0,
                    reducer.placement.finish_ms,
                )
                &&& next.ready == tree.ready.insert(id.0, reducer.placement.finish_ms)
                &&& next.objects.contains_key(id.0)
                &&& next.objects[id.0].locations == seq![reducer.placement.resource_id]
                &&& next.objects[id.0].size_bytes == reduction.task.cost.output_bytes
                &&& exists|x: int|
                    0 <= x < context.resources.len() && (#[trigger] context.resources[x]).id
                        == reducer.placement.resource_id && (seen.placed(task, context.resources[x]) matches Some(
                        cost,
                    ) && cost.total_ms == reducer.placement.total_ms)
                &&& forall|x: int|
                    0 <= x < context.resources.len() ==> (seen.placed(task, #[trigger] context.resources[x]) matches Some(
                        cost,
                    ) ==> reducer.placement.finish_ms.total_rank() <= crate::shard_placement_laws::earliest(
                        ready,
                        tree.availability,
                        context.resources[x].id,
                    ).sum(cost.total_ms).total_rank())
            }
        },
{
    if group.len() > 1 {
        let seen = ContextModel { objects: tree.objects, ..context };
        let task = reduction.task.instantiated(group, crate::shards::anonymous());
        let ready = crate::reduction_plan::inputs_ready(tree.ready, group, start_ms, group.len());
        crate::shard_placement_laws::law_work_goes_where_it_is_done_first(
            seen,
            0,
            reduction.name,
            task,
            ready,
            tree.availability,
        );
        let best = crate::shards::best_resource(
            seen,
            0,
            reduction.name,
            task,
            ready,
            tree.availability,
            None,
            context.resources.len(),
        );
        if let Some(choice) = best {
            let x = choose|x: int| #[trigger]
                crate::shard_placement_laws::is_offer(seen, task, x, ready, tree.availability, choice);
            assert(context.resources[x].id == choice.resource_id);
            assert forall|x: int|
                0 <= x < context.resources.len() implies (seen.placed(task, #[trigger] context.resources[x]) matches Some(
                cost,
            ) ==> choice.start_ms.sum(choice.cost.total_ms).total_rank() <= crate::shard_placement_laws::earliest(
                ready,
                tree.availability,
                context.resources[x].id,
            ).sum(cost.total_ms).total_rank()) by {
                assert(seen.resources[x] == context.resources[x]);
                if let Some(cost) = seen.placed(task, seen.resources[x]) {
                    assert(crate::shard_placement_laws::outdoes(
                        best,
                        ready,
                        tree.availability,
                        seen.resources[x].id,
                        cost,
                    ));
                }
            }
        }
    }
}

/// The time from which a reducer can begin is when the last of its inputs is there, but not before its
/// role could begin.
pub proof fn law_reducers_begin_with_their_last_input(
    ready: Map<u128, Binary64>,
    group: Seq<ObjectId>,
    start_ms: Binary64,
    k: nat,
)
    requires
        k <= group.len(),
        !start_ms.nan(),
    ensures
        ({
            let begin = crate::reduction_plan::inputs_ready(ready, group, start_ms, k);
            &&& !begin.nan()
            &&& start_ms.at_most(begin)
            &&& forall|i: int|
                0 <= i < k && ready.contains_key((#[trigger] group[i]).0) ==> !begin.less(ready[group[i].0])
            &&& begin == start_ms || exists|i: int|
                0 <= i < k && ready.contains_key((#[trigger] group[i]).0) && begin == ready[group[i].0]
        }),
    decreases k,
{
    if k > 0 {
        law_reducers_begin_with_their_last_input(ready, group, start_ms, (k - 1) as nat);
        let before = crate::reduction_plan::inputs_ready(ready, group, start_ms, (k - 1) as nat);
        if ready.contains_key(group[k - 1].0) {
            crate::binary64::lemma_maximum(before, ready[group[k - 1].0]);
        }
        let begin = crate::reduction_plan::inputs_ready(ready, group, start_ms, k);
        if begin == before {
            if before != start_ms {
                let i = choose|i: int|
                    0 <= i < k - 1 && ready.contains_key((#[trigger] group[i]).0) && before == ready[group[i].0];
                assert(ready.contains_key(group[i].0) && begin == ready[group[i].0]);
            }
        } else {
            assert(ready.contains_key(group[k - 1].0) && begin == ready[group[k - 1].0]);
        }
    }
}

}

//! What holds of plans as a whole: each resource does one thing after the other, through all roles.

use vstd::prelude::*;

use crate::binary64::Binary64;
use crate::ids::ObjectId;
use crate::jobs::{AutoShardModel, LogicalJobModel, LogicalRoleModel, ReductionModel, ShardPolicyModel};
use crate::planner::{PlanState, PlannedPlacement, PlannedRoleModel, SelectedModel};
use crate::reduction_plan::{PlannedReductionModel, TreeModel};
use crate::shards::{ContextModel, ShardChoice, ShardPlanModel};

verus! {

/// The last of the first `n` placements on a resource, by its position.
pub open spec fn last_at(log: Seq<PlannedPlacement>, resource: u128, n: nat) -> Option<int>
    decreases n,
{
    if n == 0 {
        None
    } else if log[n - 1].resource_id.0 == resource {
        Some(n - 1)
    } else {
        last_at(log, resource, (n - 1) as nat)
    }
}

/// A placement does not begin before the one before it on the same resource is done.
pub open spec fn begins_in_turn(log: Seq<PlannedPlacement>, j: int) -> bool {
    last_at(log, log[j].resource_id.0, j as nat) matches Some(i) ==> !log[j].start_ms.less(log[i].finish_ms)
}

/// Each resource does one thing after the other.
pub open spec fn in_turn(log: Seq<PlannedPlacement>) -> bool {
    forall|j: int| 0 <= j < log.len() ==> #[trigger] begins_in_turn(log, j)
}

spec fn freed(log: Seq<PlannedPlacement>, availability: Map<u128, Binary64>, r: u128) -> bool {
    match last_at(log, r, log.len()) {
        Some(i) => availability.contains_key(r) && availability[r] == log[i].finish_ms,
        None => !availability.contains_key(r),
    }
}

/// What is known of when resources are free is what was planned for them last.
spec fn accounted(log: Seq<PlannedPlacement>, availability: Map<u128, Binary64>) -> bool {
    &&& in_turn(log)
    &&& forall|r: u128| #[trigger] freed(log, availability, r)
}

proof fn lemma_last_at_prefix(log: Seq<PlannedPlacement>, more: PlannedPlacement, resource: u128, n: nat)
    requires
        n <= log.len(),
    ensures
        last_at(log.push(more), resource, n) == last_at(log, resource, n),
        last_at(log, resource, n) matches Some(i) ==> 0 <= i < n,
    decreases n,
{
    if n > 0 {
        lemma_last_at_prefix(log, more, resource, (n - 1) as nat);
    }
}

proof fn lemma_one_more_placement(
    log: Seq<PlannedPlacement>,
    availability: Map<u128, Binary64>,
    ready_ms: Binary64,
    next: PlannedPlacement,
)
    requires
        accounted(log, availability),
        next.start_ms == crate::shard_placement_laws::earliest(ready_ms, availability, next.resource_id),
    ensures
        accounted(log.push(next), availability.insert(next.resource_id.0, next.finish_ms)),
{
    let all = log.push(next);
    let then = availability.insert(next.resource_id.0, next.finish_ms);
    assert forall|j: int| 0 <= j < all.len() implies #[trigger] begins_in_turn(all, j) by {
        let r = all[j].resource_id.0;
        lemma_last_at_prefix(log, next, r, j as nat);
        if j < log.len() {
            assert(begins_in_turn(log, j));
        } else {
            assert(freed(log, availability, r));
        }
    }
    assert forall|r: u128| #[trigger] freed(all, then, r) by {
        lemma_last_at_prefix(log, next, r, log.len());
        assert(freed(log, availability, r));
    }
}

spec fn shards_placed(choices: Seq<ShardChoice>) -> Seq<PlannedPlacement> {
    Seq::new(choices.len(), |i: int| crate::planner::planned_placement(choices[i]))
}

spec fn reducers_placed(reductions: Seq<PlannedReductionModel>) -> Seq<PlannedPlacement> {
    Seq::new(reductions.len(), |i: int| reductions[i].placement)
}

proof fn lemma_chosen_shards_in_turn(
    context: ContextModel,
    role: LogicalRoleModel,
    given: Seq<ObjectId>,
    count: u32,
    policy: Option<AutoShardModel>,
    ready_ms: Binary64,
    availability: Map<u128, Binary64>,
    n: nat,
    log: Seq<PlannedPlacement>,
)
    requires
        accounted(log, availability),
        n <= count,
    ensures
        crate::shards::chosen_shards(context, role, given, count, policy, ready_ms, availability, n) matches Some(
            plan,
        ) ==> accounted(log + shards_placed(plan.choices), plan.availability),
    decreases n,
{
    if n == 0 {
        assert(log + shards_placed(Seq::empty()) =~= log);
    } else {
        let m = (n - 1) as nat;
        lemma_chosen_shards_in_turn(context, role, given, count, policy, ready_ms, availability, m, log);
        if let Some(before) = crate::shards::chosen_shards(
            context,
            role,
            given,
            count,
            policy,
            ready_ms,
            availability,
            m,
        ) {
            crate::shard_placement_laws::law_shards_are_the_best_offers(
                context,
                role,
                given,
                m as u32,
                count,
                policy,
                ready_ms,
                before.availability,
            );
            if let Some(Some(choice)) = crate::shards::best_shard(
                context,
                role,
                given,
                m as u32,
                count,
                policy,
                ready_ms,
                before.availability,
                role.implementations.len(),
            ) {
                let done = log + shards_placed(before.choices);
                let next = crate::planner::planned_placement(choice);
                lemma_one_more_placement(done, before.availability, ready_ms, next);
                assert(log + shards_placed(before.choices.push(choice)) =~= done.push(next));
            }
        }
    }
}

proof fn lemma_best_count_in_turn(
    context: ContextModel,
    role: LogicalRoleModel,
    given: Seq<ObjectId>,
    policy: AutoShardModel,
    ready_ms: Binary64,
    availability: Map<u128, Binary64>,
    c: nat,
    log: Seq<PlannedPlacement>,
)
    requires
        accounted(log, availability),
        c <= u32::MAX,
    ensures
        crate::shards::best_count(context, role, given, policy, ready_ms, availability, c) matches Some(plan)
            ==> accounted(log + shards_placed(plan.choices), plan.availability),
    decreases c,
{
    if c > 0 {
        lemma_best_count_in_turn(
            context,
            role,
            given,
            policy,
            ready_ms,
            availability,
            (c - 1) as nat,
            log,
        );
        lemma_chosen_shards_in_turn(
            context,
            role,
            given,
            c as u32,
            Some(policy),
            ready_ms,
            availability,
            c,
            log,
        );
    }
}

proof fn lemma_role_shards_in_turn(
    context: ContextModel,
    role: LogicalRoleModel,
    given: Seq<ObjectId>,
    ready_ms: Binary64,
    availability: Map<u128, Binary64>,
    log: Seq<PlannedPlacement>,
)
    requires
        accounted(log, availability),
    ensures
        crate::shards::role_shards(context, role, given, ready_ms, availability) matches Some(plan) ==> accounted(
            log + shards_placed(plan.choices),
            plan.availability,
        ),
{
    match role.shards {
        ShardPolicyModel::Fixed(count) => {
            lemma_chosen_shards_in_turn(
                context,
                role,
                given,
                count,
                None,
                ready_ms,
                availability,
                count as nat,
                log,
            );
        },
        ShardPolicyModel::Auto(policy) => {
            if let Some(units) = crate::shards::partition_units(role, policy.partition, context.objects) {
                lemma_best_count_in_turn(
                    context,
                    role,
                    given,
                    policy,
                    ready_ms,
                    availability,
                    crate::shards::shard_limit(policy, units) as nat,
                    log,
                );
            }
        },
    }
}

proof fn lemma_group_in_turn(
    context: ContextModel,
    mentioned: Seq<u128>,
    reduction: ReductionModel,
    start_ms: Binary64,
    group: Seq<ObjectId>,
    level: nat,
    index: nat,
    tree: TreeModel,
    log: Seq<PlannedPlacement>,
)
    requires
        accounted(log + reducers_placed(tree.reductions), tree.availability),
    ensures
        crate::reduction_plan::reduced_group(
            context,
            mentioned,
            reduction,
            start_ms,
            group,
            level,
            index,
            tree,
        ) matches Some(next) ==> accounted(log + reducers_placed(next.reductions), next.availability),
{
    if let Some(next) = crate::reduction_plan::reduced_group(
        context,
        mentioned,
        reduction,
        start_ms,
        group,
        level,
        index,
        tree,
    ) {
        if group.len() > 1 {
            crate::planner_laws::law_reducers_go_where_they_are_done_first(
                context,
                mentioned,
                reduction,
                start_ms,
                group,
                level,
                index,
                tree,
            );
            let ready = crate::reduction_plan::inputs_ready(tree.ready, group, start_ms, group.len());
            let placed = next.reductions.last().placement;
            let done = log + reducers_placed(tree.reductions);
            lemma_one_more_placement(done, tree.availability, ready, placed);
            assert(next.reductions =~= tree.reductions.push(next.reductions.last()));
            assert(log + reducers_placed(next.reductions) =~= done.push(placed));
        }
    }
}

proof fn lemma_level_in_turn(
    context: ContextModel,
    mentioned: Seq<u128>,
    reduction: ReductionModel,
    start_ms: Binary64,
    groups: Seq<Seq<ObjectId>>,
    level: nat,
    tree: TreeModel,
    k: nat,
    log: Seq<PlannedPlacement>,
)
    requires
        accounted(log + reducers_placed(tree.reductions), tree.availability),
    ensures
        crate::reduction_plan::reduced_level(
            context,
            mentioned,
            reduction,
            start_ms,
            groups,
            level,
            tree,
            k,
        ) matches Some(next) ==> accounted(log + reducers_placed(next.reductions), next.availability),
    decreases groups.len() - k,
{
    if k < groups.len() {
        let group = groups[k as int];
        lemma_group_in_turn(context, mentioned, reduction, start_ms, group, level, k, tree, log);
        if let Some(next) = crate::reduction_plan::reduced_group(
            context,
            mentioned,
            reduction,
            start_ms,
            group,
            level,
            k,
            tree,
        ) {
            lemma_level_in_turn(context, mentioned, reduction, start_ms, groups, level, next, k + 1, log);
        }
    }
}

proof fn lemma_levels_in_turn(
    context: ContextModel,
    mentioned: Seq<u128>,
    reduction: ReductionModel,
    start_ms: Binary64,
    level: nat,
    tree: TreeModel,
    steps: nat,
    log: Seq<PlannedPlacement>,
)
    requires
        accounted(log + reducers_placed(tree.reductions), tree.availability),
    ensures
        crate::reduction_plan::reduced(context, mentioned, reduction, start_ms, level, tree, steps) matches Some(
            next,
        ) ==> accounted(log + reducers_placed(next.reductions), next.availability),
    decreases steps,
{
    if !(tree.left.len() <= 1 || steps == 0 || reduction.max_fan_in == 0) {
        let groups = crate::reduction::level_groups(context.links, reduction, tree.objects, tree.left);
        let emptied = TreeModel { left: Seq::empty(), ..tree };
        lemma_level_in_turn(context, mentioned, reduction, start_ms, groups, level, emptied, 0, log);
        if let Some(next) = crate::reduction_plan::reduced_level(
            context,
            mentioned,
            reduction,
            start_ms,
            groups,
            level,
            emptied,
            0,
        ) {
            lemma_levels_in_turn(
                context,
                mentioned,
                reduction,
                start_ms,
                level + 1,
                next,
                (steps - 1) as nat,
                log,
            );
        }
    }
}

proof fn lemma_role_in_turn(
    now: ContextModel,
    mentioned: Seq<u128>,
    role: LogicalRoleModel,
    ready_ms: Binary64,
    plan: ShardPlanModel,
    log: Seq<PlannedPlacement>,
)
    requires
        accounted(log + shards_placed(plan.choices), plan.availability),
    ensures
        crate::planner::brought_together(now, mentioned, role, ready_ms, plan) matches Some(tree) ==> accounted(
            log + crate::planner::placements(
                crate::planner::settled(role, ready_ms, plan.choices, tree).planned,
            ),
            tree.availability,
        ),
{
    if let Some(tree) = crate::planner::brought_together(now, mentioned, role, ready_ms, plan) {
        let o = crate::planner::predicted_outputs(now.objects, mentioned, plan.choices, plan.choices.len());
        let first = TreeModel {
            objects: o.objects,
            availability: plan.availability,
            left: o.outputs,
            ready: o.ready,
            reductions: Seq::empty(),
        };
        let base = log + shards_placed(plan.choices);
        assert(base + reducers_placed(first.reductions) =~= base);
        if let Some(reduction) = role.reduction {
            lemma_levels_in_turn(
                ContextModel { objects: Map::empty(), ..now },
                mentioned,
                reduction,
                ready_ms,
                0,
                first,
                first.left.len(),
                base,
            );
        }
        let shown = crate::planner::placements(
            crate::planner::settled(role, ready_ms, plan.choices, tree).planned,
        );
        assert(shown =~= shards_placed(plan.choices) + reducers_placed(tree.reductions));
        assert(log + shown =~= base + reducers_placed(tree.reductions));
    }
}

/// The placements of some planned roles, one role after the other.
pub open spec fn chained(roles: Seq<PlannedRoleModel>, order: Seq<int>) -> Seq<PlannedPlacement>
    decreases order.len(),
{
    if order.len() == 0 {
        Seq::empty()
    } else {
        chained(roles, order.drop_last()) + crate::planner::placements(roles[order.last()])
    }
}

spec fn planned_roles(roles: Seq<LogicalRoleModel>, selected: Map<Seq<char>, SelectedModel>) -> Seq<PlannedRoleModel> {
    Seq::new(roles.len(), |i: int| selected[roles[i].name].planned)
}

/// The roles that are planned, in the order in which they were.
spec fn planned_in(roles: Seq<LogicalRoleModel>, selected: Map<Seq<char>, SelectedModel>, order: Seq<int>) -> bool {
    &&& order.no_duplicates()
    &&& forall|k: int| 0 <= k < order.len() ==> 0 <= #[trigger] order[k] < roles.len()
    &&& forall|i: int|
        0 <= i < roles.len() ==> (selected.contains_key((#[trigger] roles[i]).name) <==> order.contains(i))
}

proof fn lemma_chained_frame(a: Seq<PlannedRoleModel>, b: Seq<PlannedRoleModel>, order: Seq<int>)
    requires
        forall|k: int| 0 <= k < order.len() ==> a[#[trigger] order[k]] == b[order[k]],
    ensures
        chained(a, order) == chained(b, order),
    decreases order.len(),
{
    if order.len() > 0 {
        let shorter = order.drop_last();
        assert forall|k: int| 0 <= k < shorter.len() implies a[#[trigger] shorter[k]] == b[shorter[k]] by {
            assert(shorter[k] == order[k]);
        }
        lemma_chained_frame(a, b, shorter);
        assert(order[order.len() - 1] == order.last());
    }
}

proof fn lemma_planning_in_turn(
    context: ContextModel,
    roles: Seq<LogicalRoleModel>,
    mentioned: Seq<u128>,
    state: PlanState,
    steps: nat,
    order: Seq<int>,
) -> (all: Seq<int>)
    requires
        forall|i: int, j: int|
            0 <= i < j < roles.len() ==> (#[trigger] roles[i]).name != (#[trigger] roles[j]).name,
        planned_in(roles, state.selected, order),
        accounted(chained(planned_roles(roles, state.selected), order), state.availability),
    ensures
        crate::planner::planned_from(context, roles, mentioned, state, steps) matches Ok(done) ==> {
            &&& planned_in(roles, done.selected, all)
            &&& crate::planner::all_planned(done.selected, roles)
            &&& in_turn(chained(planned_roles(roles, done.selected), all))
        },
    decreases steps,
{
    if crate::planner::all_planned(state.selected, roles) || steps == 0 {
        order
    } else {
        let now = ContextModel { objects: state.objects, ..context };
        crate::planner_laws::law_the_most_constrained_role_is_planned_first(
            now,
            roles,
            state.selected,
            roles.len(),
        );
        match crate::planner::next_role(now, roles, state.selected, roles.len()) {
            None => order,
            Some(i) => {
                let role = roles[i];
                let ready_ms = crate::planner::planned_ready(
                    state.selected,
                    role.depends_on,
                    role.depends_on.len(),
                );
                let given = crate::planner::planned_inputs(
                    state.selected,
                    role.depends_on,
                    role.depends_on.len(),
                );
                let log = chained(planned_roles(roles, state.selected), order);
                lemma_role_shards_in_turn(now, role, given, ready_ms, state.availability, log);
                match crate::shards::role_shards(now, role, given, ready_ms, state.availability) {
                    None => order,
                    Some(plan) => {
                        lemma_role_in_turn(now, mentioned, role, ready_ms, plan, log);
                        match crate::planner::brought_together(now, mentioned, role, ready_ms, plan) {
                            None => order,
                            Some(tree) => {
                                let next = crate::planner::after_role(
                                    state,
                                    role,
                                    ready_ms,
                                    plan.choices,
                                    tree,
                                );
                                lemma_one_more_role(roles, state.selected, next.selected, order, i);
                                lemma_planning_in_turn(
                                    context,
                                    roles,
                                    mentioned,
                                    next,
                                    (steps - 1) as nat,
                                    order.push(i),
                                )
                            },
                        }
                    },
                }
            },
        }
    }
}

proof fn lemma_one_more_role(
    roles: Seq<LogicalRoleModel>,
    selected: Map<Seq<char>, SelectedModel>,
    then: Map<Seq<char>, SelectedModel>,
    order: Seq<int>,
    i: int,
)
    requires
        forall|a: int, b: int|
            0 <= a < b < roles.len() ==> (#[trigger] roles[a]).name != (#[trigger] roles[b]).name,
        planned_in(roles, selected, order),
        0 <= i < roles.len(),
        !selected.contains_key(roles[i].name),
        then == selected.insert(roles[i].name, then[roles[i].name]),
    ensures
        planned_in(roles, then, order.push(i)),
        chained(planned_roles(roles, then), order.push(i)) == chained(planned_roles(roles, selected), order)
            + crate::planner::placements(then[roles[i].name].planned),
{
    let longer = order.push(i);
    assert(!order.contains(i));
    assert forall|j: int| 0 <= j < roles.len() implies (then.contains_key((#[trigger] roles[j]).name)
        <==> longer.contains(j)) by {
        if order.contains(j) {
            let k = choose|k: int| 0 <= k < order.len() && order[k] == j;
            assert(longer[k] == j);
        }
        assert(longer[order.len() as int] == i);
        if longer.contains(j) && j != i {
            let k = choose|k: int| 0 <= k < longer.len() && longer[k] == j;
            assert(order[k] == j);
        }
        if j != i {
            assert(roles[j].name != roles[i].name);
        }
    }
    let before = planned_roles(roles, selected);
    let after = planned_roles(roles, then);
    assert forall|k: int| 0 <= k < order.len() implies before[#[trigger] order[k]] == after[order[k]] by {
        assert(order.contains(order[k]));
        assert(order[k] != i);
        assert(roles[order[k]].name != roles[i].name);
    }
    lemma_chained_frame(before, after, order);
    assert(longer.drop_last() =~= order);
}

/// The roles of a plan can be put in an order, each once, in which every resource does one thing after
/// the other: nothing that is planned for it, of whatever role, begins before what was planned for it
/// last is done.
pub proof fn law_plans_use_resources_in_turn(context: ContextModel, job: LogicalJobModel)
    ensures
        crate::planner::planned(context, job) matches Ok(plan) ==> exists|order: Seq<int>|
            {
                &&& order.no_duplicates()
                &&& forall|i: int| 0 <= i < plan.roles.len() <==> #[trigger] order.contains(i)
                &&& #[trigger] in_turn(chained(plan.roles, order))
            },
{
    if let Ok(plan) = crate::planner::planned(context, job) {
        let graph = crate::validation::logical_graph(job.roles);
        crate::role_graph::law_accepted_graphs_are_well_formed(graph, job.outputs);
        assert forall|a: int, b: int| 0 <= a < b < job.roles.len() implies (#[trigger] job.roles[a]).name != (
        #[trigger] job.roles[b]).name by {
            assert(graph[a].name != graph[b].name);
        }
        let first = PlanState {
            objects: context.objects,
            availability: Map::<u128, Binary64>::empty(),
            selected: Map::<Seq<char>, SelectedModel>::empty(),
        };
        let mentioned = crate::chains::role_input_ids(job.roles, job.roles.len());
        let none = Seq::<int>::empty();
        assert(chained(planned_roles(job.roles, first.selected), none) =~= Seq::<PlannedPlacement>::empty());
        assert forall|r: u128| #[trigger] freed(Seq::<PlannedPlacement>::empty(), first.availability, r) by {}
        let order = lemma_planning_in_turn(
            context,
            job.roles,
            mentioned,
            first,
            job.roles.len(),
            none,
        );
        let done = crate::planner::planned_from(context, job.roles, mentioned, first, job.roles.len())->Ok_0;
        assert(plan.roles =~= planned_roles(job.roles, done.selected));
        assert forall|i: int| 0 <= i < plan.roles.len() <==> #[trigger] order.contains(i) by {
            if 0 <= i < plan.roles.len() {
                assert(done.selected.contains_key(job.roles[i].name));
            }
            if order.contains(i) {
                let k = choose|k: int| 0 <= k < order.len() && order[k] == i;
                assert(0 <= order[k] < job.roles.len());
            }
        }
        assert(in_turn(chained(plan.roles, order)));
    }
}

}

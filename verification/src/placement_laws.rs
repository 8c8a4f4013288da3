//! What holds of predicted costs, and of the choices that are made by them.

use vstd::prelude::*;

use crate::binary64::Binary64;
use crate::ids::{ObjectId, ResourceId};
use crate::jobs::LogicalRoleModel;
use crate::objects::ObjectModel;
use crate::planner::RoleChoice;
use crate::resources::ResourceModel;
use crate::scheduler::PlacementDecision;
use crate::shards::ContextModel;
use crate::tasks::TaskModel;
use crate::topology::LinkProfile;

verus! {

/// A transfer from one of some locations that takes no longer than one from any of them.
pub open spec fn shortest_way(
    links: Seq<LinkProfile>,
    locations: Seq<ResourceId>,
    target: ResourceId,
    bytes: u64,
    time: Binary64,
) -> bool {
    &&& exists|i: int|
        0 <= i < locations.len() && crate::topology::transfer_between(
            links,
            #[trigger] locations[i],
            target,
            bytes,
        ) == Some(time)
    &&& forall|i: int|
        0 <= i < locations.len() ==> (crate::topology::transfer_between(
            links,
            #[trigger] locations[i],
            target,
            bytes,
        ) matches Some(other) ==> !other.less(time) && time.total_rank() <= other.total_rank())
}

proof fn lemma_best_transfer(
    links: Seq<LinkProfile>,
    locations: Seq<ResourceId>,
    target: ResourceId,
    bytes: u64,
    k: nat,
)
    requires
        k <= locations.len(),
    ensures
        match crate::scheduler::best_transfer(links, locations, target, bytes, k) {
            Some(time) => shortest_way(links, locations.take(k as int), target, bytes, time),
            None => forall|i: int|
                0 <= i < k ==> crate::topology::transfer_between(
                    links,
                    #[trigger] locations[i],
                    target,
                    bytes,
                ) is None,
        },
    decreases k,
{
    if k > 0 {
        let m = (k - 1) as nat;
        lemma_best_transfer(links, locations, target, bytes, m);
        let before = locations.take(m as int);
        let all = locations.take(k as int);
        let last = locations[k - 1];
        let best = crate::scheduler::best_transfer(links, locations, target, bytes, m);
        if let Some(time) = crate::scheduler::best_transfer(links, locations, target, bytes, k) {
            assert(all[k - 1] == last);
            if best == Some(time) {
                let i = choose|i: int|
                    0 <= i < before.len() && crate::topology::transfer_between(
                        links,
                        #[trigger] before[i],
                        target,
                        bytes,
                    ) == Some(time);
                assert(all[i] == before[i]);
            }
            assert forall|i: int| 0 <= i < all.len() implies (crate::topology::transfer_between(
                links,
                #[trigger] all[i],
                target,
                bytes,
            ) matches Some(other) ==> !other.less(time) && time.total_rank() <= other.total_rank()) by {
                if i < m {
                    assert(before[i] == all[i]);
                    assert(locations[i] == all[i]);
                }
            }
        }
    }
}

/// An input is priced from the replica that is quickest to reach: from one of its locations, and from
/// none of them could it come in less time. It has no price only where it can come from nowhere.
pub proof fn law_inputs_come_from_the_nearest_replica(
    links: Seq<LinkProfile>,
    locations: Seq<ResourceId>,
    target: ResourceId,
    bytes: u64,
)
    ensures
        match crate::scheduler::best_transfer(links, locations, target, bytes, locations.len()) {
            Some(time) => shortest_way(links, locations, target, bytes, time),
            None => forall|i: int|
                0 <= i < locations.len() ==> crate::topology::transfer_between(
                    links,
                    #[trigger] locations[i],
                    target,
                    bytes,
                ) is None,
        },
{
    lemma_best_transfer(links, locations, target, bytes, locations.len());
    assert(locations.take(locations.len() as int) =~= locations);
}

/// The sum of times, from the first on.
pub open spec fn added_up(times: Seq<Binary64>) -> Binary64
    decreases times.len(),
{
    if times.len() == 0 {
        Binary64 { bits: 0 }
    } else {
        added_up(times.drop_last()).sum(times.last())
    }
}

/// The inputs that have to be brought to a resource, by their positions.
pub open spec fn brought(
    task: TaskModel,
    target: ResourceId,
    objects: Map<u128, ObjectModel>,
    k: nat,
) -> Seq<int>
    decreases k,
{
    if k == 0 {
        Seq::empty()
    } else {
        let before = brought(task, target, objects, (k - 1) as nat);
        if objects[task.inputs[k - 1].0].locations.contains(target) {
            before
        } else {
            before.push(k - 1)
        }
    }
}

/// The bytes of an input that a task reads: the range that its shard is narrowed to, or all of it.
pub open spec fn read_of(task: TaskModel, i: int, objects: Map<u128, ObjectModel>) -> u64 {
    match task.byte_range(i) {
        Some((_, length)) => length,
        None => objects[task.inputs[i].0].size_bytes,
    }
}

/// Times for the inputs at some positions, each from the replica that is quickest to reach.
pub open spec fn quickest(
    task: TaskModel,
    target: ResourceId,
    objects: Map<u128, ObjectModel>,
    links: Seq<LinkProfile>,
    positions: Seq<int>,
    times: Seq<Binary64>,
) -> bool {
    &&& times.len() == positions.len()
    &&& forall|t: int|
        0 <= t < times.len() ==> shortest_way(
            links,
            objects[task.inputs[positions[t]].0].locations,
            target,
            read_of(task, positions[t], objects),
            #[trigger] times[t],
        )
}

proof fn lemma_transfers_add_up(
    task: TaskModel,
    target: ResourceId,
    objects: Map<u128, ObjectModel>,
    links: Seq<LinkProfile>,
    k: nat,
) -> (times: Seq<Binary64>)
    requires
        k <= task.inputs.len(),
    ensures
        crate::scheduler::transfer_of_inputs(task, target, objects, links, k) matches Some(total) ==> {
            &&& forall|i: int| 0 <= i < k ==> objects.contains_key(#[trigger] task.inputs[i].0)
            &&& quickest(task, target, objects, links, brought(task, target, objects, k), times)
            &&& total == added_up(times)
        },
    decreases k,
{
    if k == 0 {
        Seq::empty()
    } else {
        let before = lemma_transfers_add_up(task, target, objects, links, (k - 1) as nat);
        let i = k - 1;
        let object = objects[task.inputs[i].0];
        if object.locations.contains(target) {
            before
        } else {
            let bytes = crate::scheduler::input_bytes(task, i, object);
            law_inputs_come_from_the_nearest_replica(links, object.locations, target, bytes);
            match crate::scheduler::best_transfer(
                links,
                object.locations,
                target,
                bytes,
                object.locations.len(),
            ) {
                Some(time) => {
                    let times = before.push(time);
                    assert(times.drop_last() =~= before);
                    times
                },
                None => before,
            }
        }
    }
}

/// What it takes to bring the inputs of a task to a resource is the sum, over the inputs that are not
/// there, of the time from the replica that is quickest to reach. What is there costs nothing.
pub proof fn law_transfers_add_up(
    task: TaskModel,
    target: ResourceId,
    objects: Map<u128, ObjectModel>,
    links: Seq<LinkProfile>,
)
    ensures
        crate::scheduler::transfer_of_inputs(task, target, objects, links, task.inputs.len()) matches Some(
            total,
        ) ==> {
            &&& forall|i: int|
                0 <= i < task.inputs.len() ==> objects.contains_key(#[trigger] task.inputs[i].0)
            &&& exists|times: Seq<Binary64>| #[trigger]
                quickest(
                    task,
                    target,
                    objects,
                    links,
                    brought(task, target, objects, task.inputs.len()),
                    times,
                ) && total == added_up(times)
        },
{
    let times = lemma_transfers_add_up(task, target, objects, links, task.inputs.len());
}

proof fn lemma_transfers_fail(
    task: TaskModel,
    target: ResourceId,
    objects: Map<u128, ObjectModel>,
    links: Seq<LinkProfile>,
    k: nat,
) -> (i: int)
    requires
        k <= task.inputs.len(),
        crate::scheduler::transfer_of_inputs(task, target, objects, links, k) is None,
    ensures
        0 <= i < k,
        objects.contains_key(task.inputs[i].0) ==> {
            let object = objects[task.inputs[i].0];
            !object.locations.contains(target) && forall|l: int|
                0 <= l < object.locations.len() ==> crate::topology::transfer_between(
                    links,
                    #[trigger] object.locations[l],
                    target,
                    read_of(task, i, objects),
                ) is None
        },
    decreases k,
{
    let m = (k - 1) as nat;
    if crate::scheduler::transfer_of_inputs(task, target, objects, links, m) is None {
        lemma_transfers_fail(task, target, objects, links, m)
    } else {
        let object = objects[task.inputs[k - 1].0];
        law_inputs_come_from_the_nearest_replica(
            links,
            object.locations,
            target,
            crate::scheduler::input_bytes(task, k - 1, object),
        );
        k - 1
    }
}

/// A task has no cost on a resource only if one of its inputs is unknown, or can come there from
/// nowhere.
pub proof fn law_only_unreachable_inputs_have_no_cost(
    task: TaskModel,
    resource: ResourceModel,
    objects: Map<u128, ObjectModel>,
    links: Seq<LinkProfile>,
    risk_multiplier: Binary64,
)
    ensures
        crate::scheduler::scored(risk_multiplier, task, resource, objects, links) is None ==> exists|i: int|
            0 <= i < task.inputs.len() && (objects.contains_key(#[trigger] task.inputs[i].0) ==> {
                let object = objects[task.inputs[i].0];
                !object.locations.contains(resource.id) && forall|l: int|
                    0 <= l < object.locations.len() ==> crate::topology::transfer_between(
                        links,
                        #[trigger] object.locations[l],
                        resource.id,
                        read_of(task, i, objects),
                    ) is None
            }),
{
    if crate::scheduler::transfer_of_inputs(task, resource.id, objects, links, task.inputs.len()) is None {
        let i = lemma_transfers_fail(task, resource.id, objects, links, task.inputs.len());
        assert(0 <= i < task.inputs.len());
    }
}

/// The cost of a task on a resource is the sum of what it is made of: the work, divided by the speed
/// of the resource; the transfer of the inputs; the delays of the resource, which are never negative;
/// and a share of the work by the chance that the resource fails.
pub proof fn law_costs_add_up(
    risk_multiplier: Binary64,
    task: TaskModel,
    resource: ResourceModel,
    objects: Map<u128, ObjectModel>,
    links: Seq<LinkProfile>,
)
    ensures
        crate::scheduler::placed(risk_multiplier, task, resource, objects, links) matches Some(cost) ==> {
            &&& crate::scheduler::transfer_of_inputs(
                task,
                resource.id,
                objects,
                links,
                task.inputs.len(),
            ) == Some(cost.input_transfer_ms)
            &&& cost.total_ms == cost.compute_ms.sum(cost.input_transfer_ms).sum(cost.queue_ms).sum(
                cost.startup_ms,
            ).sum(cost.risk_penalty_ms)
            &&& cost.compute_ms == task.cost.compute_ms_on_reference.quotient(resource.performance_score)
            &&& !cost.queue_ms.less(Binary64 { bits: 0 })
            &&& !resource.queue_delay_ms.less(Binary64 { bits: 0 }) && !resource.queue_delay_ms.nan()
                && !resource.queue_delay_ms.zero() ==> cost.queue_ms == resource.queue_delay_ms
            &&& !cost.startup_ms.less(Binary64 { bits: 0 })
            &&& !resource.startup_delay_ms.less(Binary64 { bits: 0 }) && !resource.startup_delay_ms.nan()
                && !resource.startup_delay_ms.zero() ==> cost.startup_ms == resource.startup_delay_ms
            &&& resource.failure_probability.zero() ==> cost.risk_penalty_ms == cost.compute_ms.product(
                resource.failure_probability,
            ).product(risk_multiplier)
            &&& Binary64 { bits: 0 }.less(resource.failure_probability)
                && !Binary64::nearest_to(1).less(resource.failure_probability) ==> cost.risk_penalty_ms
                == cost.compute_ms.product(resource.failure_probability).product(risk_multiplier)
            &&& Binary64::nearest_to(1).less(resource.failure_probability) ==> cost.risk_penalty_ms
                == cost.compute_ms.product(Binary64::nearest_to(1)).product(risk_multiplier)
        },
{
    Binary64::lemma_one();
}

/// The placement of an implementation of a role.
pub open spec fn placement_of(
    context: ContextModel,
    role: LogicalRoleModel,
    inputs: Seq<ObjectId>,
    i: int,
) -> Option<PlacementDecision> {
    match crate::scheduler::chosen(
        context.risk_multiplier,
        role.implementations[i].task.instantiated(inputs, crate::shards::anonymous()),
        context.resources,
        context.objects,
        context.links,
    ) {
        Ok(decision) => Some(decision),
        Err(_) => None,
    }
}

/// A choice is the placement of the implementation at a position; none of the first `k` has a
/// placement that costs less, and those before it cost more, or what is no number.
pub open spec fn cheapest_implementation(
    context: ContextModel,
    role: LogicalRoleModel,
    inputs: Seq<ObjectId>,
    k: nat,
    i: int,
    choice: RoleChoice,
) -> bool {
    &&& 0 <= i < k
    &&& choice.implementation == role.implementations[i].name
    &&& choice.task == role.implementations[i].task.instantiated(inputs, crate::shards::anonymous())
    &&& placement_of(context, role, inputs, i) == Some(
        PlacementDecision { resource_id: choice.resource_id, cost: choice.cost },
    )
    &&& forall|j: int|
        0 <= j < k ==> (#[trigger] placement_of(context, role, inputs, j) matches Some(other) ==> {
            &&& !other.cost.total_ms.less(choice.cost.total_ms)
            &&& j < i ==> choice.cost.total_ms.less(other.cost.total_ms) || other.cost.total_ms.nan()
        })
}

proof fn lemma_cheapest_implementation(
    context: ContextModel,
    role: LogicalRoleModel,
    inputs: Seq<ObjectId>,
    k: nat,
)
    requires
        k <= role.implementations.len(),
    ensures
        match crate::planner::best_implementation(context, role, inputs, k) {
            Some(choice) => exists|i: int| cheapest_implementation(context, role, inputs, k, i, choice),
            None => forall|j: int|
                0 <= j < k ==> #[trigger] placement_of(context, role, inputs, j) is None,
        },
    decreases k,
{
    if k > 0 {
        let m = (k - 1) as nat;
        lemma_cheapest_implementation(context, role, inputs, m);
        let best = crate::planner::best_implementation(context, role, inputs, k);
        let before = crate::planner::best_implementation(context, role, inputs, m);
        if let Some(earlier) = before {
            let i = choose|i: int| cheapest_implementation(context, role, inputs, m, i, earlier);
            if best == before {
                assert(placement_of(context, role, inputs, k - 1) matches Some(other)
                    ==> !other.cost.total_ms.less(earlier.cost.total_ms));
                assert(cheapest_implementation(context, role, inputs, k, i, earlier));
            } else {
                assert(placement_of(context, role, inputs, i) is Some);
                assert(cheapest_implementation(context, role, inputs, k, k - 1, best.unwrap()));
            }
        } else if best is Some {
            assert(cheapest_implementation(context, role, inputs, k, k - 1, best.unwrap()));
        }
    }
}

/// A role is given the implementation that is predicted to be done first, all causes of cost counted:
/// what is taken is the placement of one of its implementations, no implementation has a placement
/// that costs less, and of equals the first is taken. Nothing is taken only where none can be placed.
pub proof fn law_implementations_are_cheapest(
    context: ContextModel,
    role: LogicalRoleModel,
    inputs: Seq<ObjectId>,
)
    ensures
        match crate::planner::best_implementation(context, role, inputs, role.implementations.len()) {
            Some(choice) => exists|i: int| #[trigger]
                cheapest_implementation(context, role, inputs, role.implementations.len(), i, choice),
            None => forall|j: int|
                0 <= j < role.implementations.len() ==> #[trigger] placement_of(context, role, inputs, j) is None,
        },
{
    lemma_cheapest_implementation(context, role, inputs, role.implementations.len());
    if let Some(choice) = crate::planner::best_implementation(
        context,
        role,
        inputs,
        role.implementations.len(),
    ) {
        let i = choose|i: int|
            cheapest_implementation(context, role, inputs, role.implementations.len(), i, choice);
        assert(cheapest_implementation(context, role, inputs, role.implementations.len(), i, choice));
    }
}

}

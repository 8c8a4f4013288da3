//! What holds of the shards of a role: what each of them works on, and where and when it runs.

use vstd::prelude::*;

use crate::binary64::Binary64;
use crate::ids::{ObjectId, ResourceId, TaskId};
use crate::jobs::{AutoShardModel, LogicalRoleModel, PartitionModel, ShardPolicyModel};
use crate::objects::ObjectModel;
use crate::scheduler::PlacementBreakdown;
use crate::shards::{ContextModel, ShardChoice};
use crate::tasks::{TaskModel, TemplateModel};

verus! {

/// The bytes of its input that a shard works on: from one place to before another.
pub open spec fn works_on(task: Option<TaskModel>, input: usize, from: int, to: int) -> bool {
    task matches Some(t) && (t.byte_range(input as int) matches Some((offset, length)) && offset == from && offset
        + length == to)
}

/// The shards of a role that cuts an input into bytes share the input: the first begins at its start,
/// each begins where the one before it ends, and the last ends at its end. Of no other input does a
/// shard take a part.
pub proof fn law_byte_shards_share_the_input(
    template: TemplateModel,
    given: Seq<ObjectId>,
    count: u32,
    policy: AutoShardModel,
    input: usize,
    objects: Map<u128, ObjectModel>,
    id: TaskId,
) -> (cuts: Seq<int>)
    requires
        count > 0,
        policy.partition == (PartitionModel::ByteRange { input }),
        input < template.inputs.len(),
        objects.contains_key(template.inputs[input as int].0),
    ensures
        cuts.len() == count + 1,
        cuts[0] == 0,
        cuts[count as int] == objects[template.inputs[input as int].0].size_bytes,
        forall|i: int|
            0 <= i < count ==> #[trigger] cuts[i] <= cuts[i + 1] && works_on(
                crate::shards::shard_task(template, given, i as u32, count, Some(policy), objects, id),
                input,
                cuts[i],
                cuts[i + 1],
            ),
        forall|i: int, other: int|
            0 <= i < count && other != input ==> (#[trigger] crate::shards::shard_task(
                template,
                given,
                i as u32,
                count,
                Some(policy),
                objects,
                id,
            ).unwrap().byte_range(other)) is None,
{
    let total = objects[template.inputs[input as int].0].size_bytes as nat;
    let cuts = Seq::new(
        (count + 1) as nat,
        |i: int| crate::shards::part_start(total, i as nat, count as nat) as int,
    );
    crate::shards::law_parts_tile_the_whole(total, count as nat);
    assert forall|i: int| 0 <= i < count implies #[trigger] cuts[i] <= cuts[i + 1] && works_on(
        crate::shards::shard_task(template, given, i as u32, count, Some(policy), objects, id),
        input,
        cuts[i],
        cuts[i + 1],
    ) by {
        let k = i as nat;
        assert(crate::shards::part_start(total, k, count as nat) <= crate::shards::part_start(
            total,
            (k + 1) as nat,
            count as nat,
        ) <= total);
        assert(cuts[i + 1] == crate::shards::part_start(total, (k + 1) as nat, count as nat));
    }
    cuts
}

/// The shards of a role that cuts an input into records share its records in the same way, and each
/// has whole records.
pub proof fn law_record_shards_share_the_input(
    template: TemplateModel,
    given: Seq<ObjectId>,
    count: u32,
    policy: AutoShardModel,
    input: usize,
    offsets: Seq<u64>,
    objects: Map<u128, ObjectModel>,
    id: TaskId,
) -> (cuts: Seq<int>)
    requires
        count > 0,
        policy.partition == (PartitionModel::Records { input, offsets }),
        input < template.inputs.len(),
        objects.contains_key(template.inputs[input as int].0),
        offsets.len() <= u64::MAX,
        offsets.len() > 0,
        offsets[0] == 0,
        forall|i: int, j: int| 0 <= i < j < offsets.len() ==> offsets[i] < offsets[j],
        offsets.last() == objects[template.inputs[input as int].0].size_bytes,
    ensures
        cuts.len() == count + 1,
        cuts[0] == 0,
        cuts[count as int] == offsets.len() - 1,
        forall|i: int|
            0 <= i < count ==> 0 <= #[trigger] cuts[i] <= cuts[i + 1] < offsets.len() && works_on(
                crate::shards::shard_task(template, given, i as u32, count, Some(policy), objects, id),
                input,
                offsets[cuts[i]] as int,
                offsets[cuts[i + 1]] as int,
            ),
{
    let records = (offsets.len() - 1) as nat;
    let total = objects[template.inputs[input as int].0].size_bytes;
    let cuts = Seq::new(
        (count + 1) as nat,
        |i: int| crate::shards::part_start(records, i as nat, count as nat) as int,
    );
    crate::shards::law_parts_tile_the_whole(records, count as nat);
    assert forall|i: int| 0 <= i < count implies 0 <= #[trigger] cuts[i] <= cuts[i + 1] < offsets.len() && works_on(
        crate::shards::shard_task(template, given, i as u32, count, Some(policy), objects, id),
        input,
        offsets[cuts[i]] as int,
        offsets[cuts[i + 1]] as int,
    ) by {
        let k = i as nat;
        assert(crate::shards::part_start(records, k, count as nat) <= crate::shards::part_start(
            records,
            (k + 1) as nat,
            count as nat,
        ) <= records);
        assert(cuts[i + 1] == crate::shards::part_start(records, (k + 1) as nat, count as nat));
        crate::shards::law_record_shards_tile_the_object(input, offsets, k, count as nat, total);
    }
    cuts
}

/// A shard that has part of the work costs that part of the compute time, and what a shard costs on
/// top.
pub proof fn law_shards_cost_their_share(
    template: TemplateModel,
    given: Seq<ObjectId>,
    index: u32,
    count: u32,
    policy: AutoShardModel,
    objects: Map<u128, ObjectModel>,
    id: TaskId,
)
    ensures
        crate::shards::shard_task(template, given, index, count, Some(policy), objects, id) matches Some(task)
            ==> {
            let (start, amount, total) = task.shard.unwrap().partition.unwrap().share();
            &&& total > 0 ==> task.cost.compute_ms_on_reference
                == template.cost.compute_ms_on_reference.product(
                Binary64::nearest_to(amount as nat).quotient(Binary64::nearest_to(total as nat)),
            ).sum(policy.per_shard_overhead_ms)
            &&& total == 0 ==> task.cost.output_bytes == template.cost.output_bytes
        },
{
}

/// The earliest time at which a resource can begin with something that is ready at a given time.
pub open spec fn earliest(ready_ms: Binary64, availability: Map<u128, Binary64>, resource: ResourceId) -> Binary64 {
    let free = if availability.contains_key(resource.0) {
        availability[resource.0]
    } else {
        Binary64 { bits: 0 }
    };
    if ready_ms.nan() || ready_ms.less(free) {
        free
    } else {
        ready_ms
    }
}

/// A choice is to run a task on a resource that can run it, as early as that resource can, at the cost
/// that the task has there.
pub open spec fn is_offer(
    context: ContextModel,
    task: TaskModel,
    m: int,
    ready_ms: Binary64,
    availability: Map<u128, Binary64>,
    choice: ShardChoice,
) -> bool {
    &&& 0 <= m < context.resources.len()
    &&& choice.task == task
    &&& choice.resource_id == context.resources[m].id
    &&& context.placed(task, context.resources[m]) == Some(choice.cost)
    &&& choice.start_ms == earliest(ready_ms, availability, choice.resource_id)
}

/// There is a choice, and no offer is better: none is done earlier, and of those that are done at the
/// same time none costs less.
pub open spec fn outdoes(
    best: Option<ShardChoice>,
    ready_ms: Binary64,
    availability: Map<u128, Binary64>,
    resource: ResourceId,
    cost: PlacementBreakdown,
) -> bool {
    best matches Some(choice) && {
        let done = choice.start_ms.sum(choice.cost.total_ms).total_rank();
        let other = earliest(ready_ms, availability, resource).sum(cost.total_ms).total_rank();
        done <= other && (done == other ==> !cost.total_ms.less(choice.cost.total_ms))
    }
}

proof fn lemma_best_resource_keeps(
    context: ContextModel,
    index: u32,
    implementation: Seq<char>,
    task: TaskModel,
    ready_ms: Binary64,
    availability: Map<u128, Binary64>,
    best: Option<ShardChoice>,
    m: nat,
    resource: ResourceId,
    cost: PlacementBreakdown,
)
    requires
        m <= context.resources.len(),
        outdoes(best, ready_ms, availability, resource, cost),
    ensures
        outdoes(
            crate::shards::best_resource(
                context,
                index,
                implementation,
                task,
                ready_ms,
                availability,
                best,
                m,
            ),
            ready_ms,
            availability,
            resource,
            cost,
        ),
    decreases m,
{
    if m > 0 {
        lemma_best_resource_keeps(
            context,
            index,
            implementation,
            task,
            ready_ms,
            availability,
            best,
            (m - 1) as nat,
            resource,
            cost,
        );
    }
}

proof fn lemma_best_resource_outdoes(
    context: ContextModel,
    index: u32,
    implementation: Seq<char>,
    task: TaskModel,
    ready_ms: Binary64,
    availability: Map<u128, Binary64>,
    best: Option<ShardChoice>,
    m: nat,
    x: int,
)
    requires
        m <= context.resources.len(),
        0 <= x < m,
        context.placed(task, context.resources[x]) is Some,
    ensures
        outdoes(
            crate::shards::best_resource(
                context,
                index,
                implementation,
                task,
                ready_ms,
                availability,
                best,
                m,
            ),
            ready_ms,
            availability,
            context.resources[x].id,
            context.placed(task, context.resources[x]).unwrap(),
        ),
    decreases m,
{
    if x < m - 1 {
        lemma_best_resource_outdoes(
            context,
            index,
            implementation,
            task,
            ready_ms,
            availability,
            best,
            (m - 1) as nat,
            x,
        );
    }
}

proof fn lemma_best_resource_is_an_offer(
    context: ContextModel,
    index: u32,
    implementation: Seq<char>,
    task: TaskModel,
    ready_ms: Binary64,
    availability: Map<u128, Binary64>,
    best: Option<ShardChoice>,
    m: nat,
)
    requires
        m <= context.resources.len(),
    ensures
        ({
            let r = crate::shards::best_resource(
                context,
                index,
                implementation,
                task,
                ready_ms,
                availability,
                best,
                m,
            );
            r == best || (r matches Some(choice) && choice.implementation == implementation && choice.index == index
                && exists|x: int| #[trigger] is_offer(context, task, x, ready_ms, availability, choice))
        }),
    decreases m,
{
    if m > 0 {
        lemma_best_resource_is_an_offer(
            context,
            index,
            implementation,
            task,
            ready_ms,
            availability,
            best,
            (m - 1) as nat,
        );
        let before = crate::shards::best_resource(
            context,
            index,
            implementation,
            task,
            ready_ms,
            availability,
            best,
            (m - 1) as nat,
        );
        let r = crate::shards::best_resource(
            context,
            index,
            implementation,
            task,
            ready_ms,
            availability,
            best,
            m,
        );
        if r != before {
            assert(is_offer(context, task, m - 1, ready_ms, availability, r.unwrap()));
        }
    }
}

/// Work is put on the resource that is predicted to be done with it first, and of those that are done
/// at the same time on one where it costs least; it begins there as early as the resource can. It is
/// put nowhere only where nothing can run it.
pub proof fn law_work_goes_where_it_is_done_first(
    context: ContextModel,
    index: u32,
    implementation: Seq<char>,
    task: TaskModel,
    ready_ms: Binary64,
    availability: Map<u128, Binary64>,
)
    ensures
        ({
            let best = crate::shards::best_resource(
                context,
                index,
                implementation,
                task,
                ready_ms,
                availability,
                None,
                context.resources.len(),
            );
            &&& best matches Some(choice) ==> choice.implementation == implementation && exists|x: int| #[trigger]
                is_offer(context, task, x, ready_ms, availability, choice)
            &&& forall|x: int|
                0 <= x < context.resources.len() ==> (#[trigger] context.placed(task, context.resources[x]) matches Some(
                    cost,
                ) ==> outdoes(best, ready_ms, availability, context.resources[x].id, cost))
        }),
{
    let n = context.resources.len();
    lemma_best_resource_is_an_offer(
        context,
        index,
        implementation,
        task,
        ready_ms,
        availability,
        None,
        n,
    );
    let best = crate::shards::best_resource(
        context,
        index,
        implementation,
        task,
        ready_ms,
        availability,
        None,
        n,
    );
    assert forall|x: int| 0 <= x < n implies (#[trigger] context.placed(task, context.resources[x]) matches Some(
        cost,
    ) ==> outdoes(best, ready_ms, availability, context.resources[x].id, cost)) by {
        if context.placed(task, context.resources[x]) is Some {
            lemma_best_resource_outdoes(
                context,
                index,
                implementation,
                task,
                ready_ms,
                availability,
                None,
                n,
                x,
            );
        }
    }
}

/// The task of a shard by an implementation of a role.
pub open spec fn shard_by(
    context: ContextModel,
    role: LogicalRoleModel,
    given: Seq<ObjectId>,
    index: u32,
    count: u32,
    policy: Option<AutoShardModel>,
    i: int,
) -> Option<TaskModel> {
    crate::shards::shard_task(
        role.implementations[i].task,
        given,
        index,
        count,
        policy,
        context.objects,
        crate::shards::anonymous(),
    )
}

/// A choice is an offer of one of the first `k` implementations of a role.
pub open spec fn offered_by(
    context: ContextModel,
    role: LogicalRoleModel,
    given: Seq<ObjectId>,
    count: u32,
    policy: Option<AutoShardModel>,
    ready_ms: Binary64,
    availability: Map<u128, Binary64>,
    k: nat,
    choice: ShardChoice,
) -> bool {
    exists|i: int, x: int|
        #![trigger is_offer(
            context,
            shard_by(context, role, given, choice.index, count, policy, i).unwrap(),
            x,
            ready_ms,
            availability,
            choice,
        )]
        0 <= i < k && choice.implementation == role.implementations[i].name && shard_by(
            context,
            role,
            given,
            choice.index,
            count,
            policy,
            i,
        ) is Some && is_offer(
            context,
            shard_by(context, role, given, choice.index, count, policy, i).unwrap(),
            x,
            ready_ms,
            availability,
            choice,
        )
}

proof fn lemma_best_shard_is_offered(
    context: ContextModel,
    role: LogicalRoleModel,
    given: Seq<ObjectId>,
    index: u32,
    count: u32,
    policy: Option<AutoShardModel>,
    ready_ms: Binary64,
    availability: Map<u128, Binary64>,
    k: nat,
)
    requires
        k <= role.implementations.len(),
    ensures
        crate::shards::best_shard(context, role, given, index, count, policy, ready_ms, availability, k) matches Some(
            Some(choice),
        ) ==> choice.index == index && offered_by(
            context,
            role,
            given,
            count,
            policy,
            ready_ms,
            availability,
            k,
            choice,
        ),
    decreases k,
{
    if k > 0 {
        let m = (k - 1) as nat;
        lemma_best_shard_is_offered(context, role, given, index, count, policy, ready_ms, availability, m);
        let before = crate::shards::best_shard(
            context,
            role,
            given,
            index,
            count,
            policy,
            ready_ms,
            availability,
            m,
        );
        let task = shard_by(context, role, given, index, count, policy, k - 1);
        if before is Some && task is Some {
            lemma_best_resource_is_an_offer(
                context,
                index,
                role.implementations[k - 1].name,
                task.unwrap(),
                ready_ms,
                availability,
                before.unwrap(),
                context.resources.len(),
            );
            let r = crate::shards::best_resource(
                context,
                index,
                role.implementations[k - 1].name,
                task.unwrap(),
                ready_ms,
                availability,
                before.unwrap(),
                context.resources.len(),
            );
            if r == before.unwrap() {
                if let Some(choice) = r {
                    let (i, x) = choose|i: int, x: int|
                        #![trigger is_offer(
                            context,
                            shard_by(context, role, given, choice.index, count, policy, i).unwrap(),
                            x,
                            ready_ms,
                            availability,
                            choice,
                        )]
                        0 <= i < m && choice.implementation == role.implementations[i].name && shard_by(
                            context,
                            role,
                            given,
                            choice.index,
                            count,
                            policy,
                            i,
                        ) is Some && is_offer(
                            context,
                            shard_by(context, role, given, choice.index, count, policy, i).unwrap(),
                            x,
                            ready_ms,
                            availability,
                            choice,
                        );
                    assert(0 <= i < k);
                }
            } else if let Some(choice) = r {
                let x = choose|x: int| #[trigger]
                    is_offer(context, task.unwrap(), x, ready_ms, availability, choice);
                assert(is_offer(
                    context,
                    shard_by(context, role, given, choice.index, count, policy, k - 1).unwrap(),
                    x,
                    ready_ms,
                    availability,
                    choice,
                ));
            }
        }
    }
}

proof fn lemma_best_shard_outdoes(
    context: ContextModel,
    role: LogicalRoleModel,
    given: Seq<ObjectId>,
    index: u32,
    count: u32,
    policy: Option<AutoShardModel>,
    ready_ms: Binary64,
    availability: Map<u128, Binary64>,
    k: nat,
    i: int,
    x: int,
)
    requires
        k <= role.implementations.len(),
        0 <= i < k,
        0 <= x < context.resources.len(),
        shard_by(context, role, given, index, count, policy, i) is Some,
        context.placed(
            shard_by(context, role, given, index, count, policy, i).unwrap(),
            context.resources[x],
        ) is Some,
    ensures
        crate::shards::best_shard(context, role, given, index, count, policy, ready_ms, availability, k) matches Some(
            best,
        ) ==> outdoes(
            best,
            ready_ms,
            availability,
            context.resources[x].id,
            context.placed(
                shard_by(context, role, given, index, count, policy, i).unwrap(),
                context.resources[x],
            ).unwrap(),
        ),
    decreases k,
{
    let m = (k - 1) as nat;
    let before = crate::shards::best_shard(
        context,
        role,
        given,
        index,
        count,
        policy,
        ready_ms,
        availability,
        m,
    );
    let task = shard_by(context, role, given, index, count, policy, k - 1);
    if before is Some && task is Some {
        if i < m {
            lemma_best_shard_outdoes(
                context,
                role,
                given,
                index,
                count,
                policy,
                ready_ms,
                availability,
                m,
                i,
                x,
            );
            lemma_best_resource_keeps(
                context,
                index,
                role.implementations[k - 1].name,
                task.unwrap(),
                ready_ms,
                availability,
                before.unwrap(),
                context.resources.len(),
                context.resources[x].id,
                context.placed(
                    shard_by(context, role, given, index, count, policy, i).unwrap(),
                    context.resources[x],
                ).unwrap(),
            );
        } else {
            lemma_best_resource_outdoes(
                context,
                index,
                role.implementations[k - 1].name,
                task.unwrap(),
                ready_ms,
                availability,
                before.unwrap(),
                context.resources.len(),
                x,
            );
        }
    }
}

/// What is planned of a shard is an offer of one of the implementations of the role, and no offer of
/// any of them is better: none is done earlier, and none that is done at the same time costs less.
pub proof fn law_shards_are_the_best_offers(
    context: ContextModel,
    role: LogicalRoleModel,
    given: Seq<ObjectId>,
    index: u32,
    count: u32,
    policy: Option<AutoShardModel>,
    ready_ms: Binary64,
    availability: Map<u128, Binary64>,
)
    ensures
        crate::shards::best_shard(
            context,
            role,
            given,
            index,
            count,
            policy,
            ready_ms,
            availability,
            role.implementations.len(),
        ) matches Some(best) ==> {
            &&& best matches Some(choice) ==> choice.index == index && offered_by(
                context,
                role,
                given,
                count,
                policy,
                ready_ms,
                availability,
                role.implementations.len(),
                choice,
            )
            &&& forall|i: int, x: int|
                #![trigger context.placed(
                    shard_by(context, role, given, index, count, policy, i).unwrap(),
                    context.resources[x],
                )]
                0 <= i < role.implementations.len() && 0 <= x < context.resources.len() ==> (shard_by(
                    context,
                    role,
                    given,
                    index,
                    count,
                    policy,
                    i,
                ) matches Some(task) ==> (context.placed(task, context.resources[x]) matches Some(cost) ==> outdoes(
                    best,
                    ready_ms,
                    availability,
                    context.resources[x].id,
                    cost,
                )))
        },
{
    let n = role.implementations.len();
    lemma_best_shard_is_offered(context, role, given, index, count, policy, ready_ms, availability, n);
    if let Some(best) = crate::shards::best_shard(
        context,
        role,
        given,
        index,
        count,
        policy,
        ready_ms,
        availability,
        n,
    ) {
        assert forall|i: int, x: int|
            #![trigger context.placed(
                shard_by(context, role, given, index, count, policy, i).unwrap(),
                context.resources[x],
            )]
            0 <= i < n && 0 <= x < context.resources.len() implies (shard_by(
            context,
            role,
            given,
            index,
            count,
            policy,
            i,
        ) matches Some(task) ==> (context.placed(task, context.resources[x]) matches Some(cost) ==> outdoes(
            best,
            ready_ms,
            availability,
            context.resources[x].id,
            cost,
        ))) by {
            if let Some(task) = shard_by(context, role, given, index, count, policy, i) {
                if context.placed(task, context.resources[x]) is Some {
                    lemma_best_shard_outdoes(
                        context,
                        role,
                        given,
                        index,
                        count,
                        policy,
                        ready_ms,
                        availability,
                        n,
                        i,
                        x,
                    );
                }
            }
        }
    }
}

/// The last of the first `n` choices that runs on a resource, by its position.
pub open spec fn last_on(choices: Seq<ShardChoice>, resource: u128, n: nat) -> Option<int>
    decreases n,
{
    if n == 0 {
        None
    } else if choices[n - 1].resource_id.0 == resource {
        Some(n - 1)
    } else {
        last_on(choices, resource, (n - 1) as nat)
    }
}

/// When a resource is done with what it had to do and with the first `n` of some choices.
pub open spec fn done_with(
    availability: Map<u128, Binary64>,
    choices: Seq<ShardChoice>,
    resource: u128,
    n: nat,
) -> Option<Binary64> {
    match last_on(choices, resource, n) {
        Some(i) => Some(choices[i].start_ms.sum(choices[i].cost.total_ms)),
        None => if availability.contains_key(resource) {
            Some(availability[resource])
        } else {
            None
        },
    }
}

proof fn lemma_last_on_prefix(choices: Seq<ShardChoice>, more: ShardChoice, resource: u128, n: nat)
    requires
        n <= choices.len(),
    ensures
        last_on(choices.push(more), resource, n) == last_on(choices, resource, n),
        last_on(choices, resource, n) matches Some(i) ==> 0 <= i < n,
    decreases n,
{
    if n > 0 {
        lemma_last_on_prefix(choices, more, resource, (n - 1) as nat);
    }
}

/// Choices that run one after the other on each resource: none begins before the resource is done with
/// what it had to do, and with the choice before it that runs there.
pub open spec fn one_after_the_other(availability: Map<u128, Binary64>, choices: Seq<ShardChoice>) -> bool {
    forall|j: int| 0 <= j < choices.len() ==> #[trigger] begins_after_others(availability, choices, j)
}

pub open spec fn begins_after_others(
    availability: Map<u128, Binary64>,
    choices: Seq<ShardChoice>,
    j: int,
) -> bool {
    done_with(availability, choices, choices[j].resource_id.0, j as nat) matches Some(done)
        ==> !choices[j].start_ms.less(done)
}

/// It is remembered when each resource is done.
pub open spec fn remembered(
    availability: Map<u128, Binary64>,
    choices: Seq<ShardChoice>,
    then: Map<u128, Binary64>,
) -> bool {
    forall|r: u128| #[trigger] is_remembered(availability, choices, then, r)
}

pub open spec fn is_remembered(
    availability: Map<u128, Binary64>,
    choices: Seq<ShardChoice>,
    then: Map<u128, Binary64>,
    r: u128,
) -> bool {
    match done_with(availability, choices, r, choices.len()) {
        Some(done) => then.contains_key(r) && then[r] == done,
        None => !then.contains_key(r),
    }
}

proof fn lemma_one_more_choice(
    availability: Map<u128, Binary64>,
    choices: Seq<ShardChoice>,
    then: Map<u128, Binary64>,
    ready_ms: Binary64,
    choice: ShardChoice,
)
    requires
        one_after_the_other(availability, choices),
        remembered(availability, choices, then),
        choice.start_ms == earliest(ready_ms, then, choice.resource_id),
    ensures
        one_after_the_other(availability, choices.push(choice)),
        remembered(
            availability,
            choices.push(choice),
            then.insert(choice.resource_id.0, choice.start_ms.sum(choice.cost.total_ms)),
        ),
{
    let all = choices.push(choice);
    let next = then.insert(choice.resource_id.0, choice.start_ms.sum(choice.cost.total_ms));
    let m = choices.len();
    assert forall|j: int| 0 <= j < all.len() implies #[trigger] begins_after_others(availability, all, j) by {
        let r = all[j].resource_id.0;
        lemma_last_on_prefix(choices, choice, r, j as nat);
        if j < m {
            assert(begins_after_others(availability, choices, j));
        } else {
            assert(is_remembered(availability, choices, then, r));
        }
    }
    assert forall|r: u128| #[trigger] is_remembered(availability, all, next, r) by {
        lemma_last_on_prefix(choices, choice, r, m);
        assert(is_remembered(availability, choices, then, r));
    }
}

/// Each resource does one thing after the other: a shard does not begin before the resource is done
/// with what it had to do, and with the shard before it that runs there; nor before its role is ready.
/// It is remembered when each resource is done.
pub proof fn law_resources_do_one_thing_at_a_time(
    context: ContextModel,
    role: LogicalRoleModel,
    given: Seq<ObjectId>,
    count: u32,
    policy: Option<AutoShardModel>,
    ready_ms: Binary64,
    availability: Map<u128, Binary64>,
    n: nat,
)
    requires
        n <= count,
    ensures
        crate::shards::chosen_shards(context, role, given, count, policy, ready_ms, availability, n) matches Some(
            plan,
        ) ==> {
            &&& plan.choices.len() == n
            &&& one_after_the_other(availability, plan.choices)
            &&& remembered(availability, plan.choices, plan.availability)
            &&& forall|j: int|
                0 <= j < n ==> ready_ms.nan() || !(#[trigger] plan.choices[j]).start_ms.less(ready_ms)
        },
    decreases n,
{
    if n > 0 {
        let m = (n - 1) as nat;
        law_resources_do_one_thing_at_a_time(
            context,
            role,
            given,
            count,
            policy,
            ready_ms,
            availability,
            m,
        );
        if let Some(plan) = crate::shards::chosen_shards(
            context,
            role,
            given,
            count,
            policy,
            ready_ms,
            availability,
            n,
        ) {
            let before = crate::shards::chosen_shards(
                context,
                role,
                given,
                count,
                policy,
                ready_ms,
                availability,
                m,
            ).unwrap();
            let choice = plan.choices[n - 1];
            lemma_best_shard_is_offered(
                context,
                role,
                given,
                m as u32,
                count,
                policy,
                ready_ms,
                before.availability,
                role.implementations.len(),
            );
            assert(choice.start_ms == earliest(ready_ms, before.availability, choice.resource_id));
            lemma_one_more_choice(availability, before.choices, before.availability, ready_ms, choice);
            assert forall|j: int| 0 <= j < n implies ready_ms.nan() || !(
            #[trigger] plan.choices[j]).start_ms.less(ready_ms) by {
                if j < m {
                    assert(plan.choices[j] == before.choices[j]);
                }
            }
        }
    }
}

/// The time by which all of the first `n` choices are done is the time from which they could start, or
/// that of one of them; and none of them is done later.
pub proof fn law_the_last_shard_decides(choices: Seq<ShardChoice>, ready_ms: Binary64, n: nat)
    requires
        n <= choices.len(),
        !ready_ms.nan(),
    ensures
        ({
            let end = crate::shards::latest_finish(choices, ready_ms, n);
            &&& !end.nan()
            &&& !end.less(ready_ms)
            &&& forall|i: int|
                0 <= i < n ==> !end.less((#[trigger] choices[i]).start_ms.sum(choices[i].cost.total_ms))
            &&& end == ready_ms || exists|i: int|
                0 <= i < n && end == (#[trigger] choices[i]).start_ms.sum(choices[i].cost.total_ms)
        }),
    decreases n,
{
    if n > 0 {
        law_the_last_shard_decides(choices, ready_ms, (n - 1) as nat);
        let before = crate::shards::latest_finish(choices, ready_ms, (n - 1) as nat);
        let end = crate::shards::latest_finish(choices, ready_ms, n);
        if end == before {
            if before != ready_ms {
                let i = choose|i: int|
                    0 <= i < n - 1 && before == (#[trigger] choices[i]).start_ms.sum(choices[i].cost.total_ms);
                assert(end == choices[i].start_ms.sum(choices[i].cost.total_ms));
            }
        } else {
            assert(end == choices[n - 1].start_ms.sum(choices[n - 1].cost.total_ms));
        }
    }
}

/// A role that asks for a number of shards gets that number. One that leaves it open gets no more than
/// it admits, and no shard without a byte or a record to work on; only for an empty object there is
/// one shard with nothing.
pub proof fn law_no_more_shards_than_admitted(
    context: ContextModel,
    role: LogicalRoleModel,
    given: Seq<ObjectId>,
    ready_ms: Binary64,
    availability: Map<u128, Binary64>,
)
    ensures
        crate::shards::role_shards(context, role, given, ready_ms, availability) matches Some(plan) ==> {
            let n = plan.choices.len();
            match role.shards {
                ShardPolicyModel::Fixed(count) => n == count,
                ShardPolicyModel::Auto(policy) => {
                    &&& role.implementations.len() > 0
                    &&& policy.partition.position() < role.implementations[0].task.inputs.len()
                    &&& {
                        let object = role.implementations[0].task.inputs[policy.partition.position() as int];
                        let units = match policy.partition {
                            PartitionModel::ByteRange { .. } => context.objects[object.0].size_bytes as int,
                            PartitionModel::Records { offsets, .. } => offsets.len() - 1,
                        };
                        &&& context.objects.contains_key(object.0)
                        &&& n >= 1
                        &&& units <= u64::MAX && units > 0 ==> n <= policy.max_shards && n <= units
                        &&& units == 0 ==> n == 1
                    }
                },
            }
        },
{
    match role.shards {
        ShardPolicyModel::Fixed(count) => {
            law_resources_do_one_thing_at_a_time(
                context,
                role,
                given,
                count,
                None,
                ready_ms,
                availability,
                count as nat,
            );
        },
        ShardPolicyModel::Auto(policy) => {
            if let Some(units) = crate::shards::partition_units(role, policy.partition, context.objects) {
                crate::shard_laws::law_more_shards_must_pay(
                    context,
                    role,
                    given,
                    policy,
                    ready_ms,
                    availability,
                    crate::shards::shard_limit(policy, units) as nat,
                );
            }
        },
    }
}

/// When one number of shards replaces another that takes longer, it gains at least the part of that
/// time that the policy asks for; otherwise it takes as long with fewer shards. What gains that much is
/// not refused.
pub proof fn law_gains_are_shares_of_the_time(
    candidate_ms: Binary64,
    candidate_count: nat,
    current_ms: Binary64,
    current_count: nat,
    min_gain_ratio: Binary64,
)
    requires
        (Binary64 { bits: 0 }).less(current_ms),
        !candidate_ms.nan(),
        !candidate_ms.zero(),
    ensures
        candidate_ms.less(current_ms) ==> crate::shards::worth_it(
            candidate_ms,
            candidate_count,
            current_ms,
            current_count,
            min_gain_ratio,
        ) == min_gain_ratio.at_most(current_ms.difference(candidate_ms).quotient(current_ms)),
        !candidate_ms.less(current_ms) ==> crate::shards::worth_it(
            candidate_ms,
            candidate_count,
            current_ms,
            current_count,
            min_gain_ratio,
        ) == (candidate_ms == current_ms && candidate_count < current_count),
{
}

/// The time that a role adds is what passes from when it is ready until its last shard is done, and
/// never negative.
pub proof fn law_added_time_is_the_wait(choices: Seq<ShardChoice>, ready_ms: Binary64)
    ensures
        ({
            let added = crate::shards::added_time(choices, ready_ms);
            let passed = crate::shards::latest_finish(choices, ready_ms, choices.len()).difference(ready_ms);
            &&& !added.less(Binary64 { bits: 0 })
            &&& (Binary64 { bits: 0 }).less(passed) ==> added == passed
        }),
{
}

}

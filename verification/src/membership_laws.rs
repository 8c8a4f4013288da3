//! What holds of members and of the work that they do: who is one and until when, what they are given,
//! and what becomes of it.

use vstd::prelude::*;

use crate::fabric_model::FabricModel;
use crate::ids::{ExecutionId, ObjectId, ResourceId, TaskId};
use crate::objects::ObjectModel;
use crate::resources::{RequirementsModel, ResourceModel};
use crate::status::{FabricErrorModel, TaskStatusModel};
use crate::tasks::{ExecutionLease, TaskModel};

verus! {

/// A time by which something ends that lasts for a while from now on; there is no later one than the
/// last that can be written.
pub open spec fn until(now: u64, duration: u64) -> int {
    if now + duration > u64::MAX {
        u64::MAX as int
    } else {
        now + duration
    }
}

/// A resource that registers is a member as it describes itself, in the incarnation that its lease
/// names, until the time of membership is over; nothing else changes.
pub proof fn law_members_are_admitted(a: FabricModel, descriptor: ResourceModel, now: u64, at: u64)
    requires
        a.next_epoch(descriptor) <= u64::MAX,
    ensures
        ({
            let b = a.registered(descriptor, now);
            let lease = a.membership(descriptor, now);
            let held = b.resources[descriptor.id.0].descriptor;
            &&& b.resources.contains_key(descriptor.id.0)
            &&& held == (ResourceModel { epoch: held.epoch, ..descriptor })
            &&& lease.resource_id == descriptor.id
            &&& lease.epoch == held.epoch
            &&& lease.expires_at_unix_ms == until(now, a.membership_ttl_ms)
            &&& b.active(descriptor.id.0, at) <==> at < until(now, a.membership_ttl_ms)
            &&& forall|k: u128|
                k != descriptor.id.0 ==> (#[trigger] b.active(k, at) <==> a.active(k, at)) && b.resources[k]
                    == a.resources[k]
            &&& b == (FabricModel { resources: b.resources, epochs: b.epochs, ..a })
        }),
{
}

/// A member that is heard of stays one for another while; only its own incarnation can do that for
/// it.
pub proof fn law_heartbeats_extend_membership(
    a: FabricModel,
    resource_id: ResourceId,
    epoch: u64,
    now: u64,
    at: u64,
)
    ensures
        ({
            let outcome = a.heartbeat(resource_id, epoch, now);
            let b = outcome.state;
            let known = a.resources.contains_key(resource_id.0);
            let same = a.resources[resource_id.0].descriptor.epoch == epoch;
            &&& outcome.answer is Ok <==> known && same
            &&& outcome.answer matches Ok(lease) ==> {
                &&& lease.resource_id == resource_id
                &&& lease.epoch == epoch
                &&& lease.expires_at_unix_ms == until(now, a.membership_ttl_ms)
                &&& b.active(resource_id.0, at) <==> at < until(now, a.membership_ttl_ms)
                &&& b.resources[resource_id.0].descriptor == a.resources[resource_id.0].descriptor
                &&& forall|k: u128|
                    k != resource_id.0 ==> (#[trigger] b.resources.contains_key(k)
                        <==> a.resources.contains_key(k)) && b.resources[k] == a.resources[k]
                &&& b == (FabricModel { resources: b.resources, ..a })
            }
            &&& outcome.answer matches Err(error) ==> b == a && error == if known {
                FabricErrorModel::StaleResourceEpoch(resource_id)
            } else {
                FabricErrorModel::ResourceNotActive(resource_id)
            }
        }),
{
}

/// The members whose time is over are just those that have expired by now, and when they are
/// dismissed just they are gone.
pub proof fn law_expired_members_leave(a: FabricModel, now: u64, k: u128)
    ensures
        a.expired(now).contains(k) <==> a.resources.contains_key(k) && !a.active(k, now),
        ({
            let b = a.without_resources(a.expired(now), a.expired(now).len());
            &&& b.resources.contains_key(k) <==> a.active(k, now)
            &&& a.active(k, now) ==> b.resources[k] == a.resources[k]
            &&& b.tasks == a.tasks
            &&& b.jobs == a.jobs
        }),
{
    let gone = a.expired(now);
    let over = |k: u128| a.resources[k].expires_at_unix_ms <= now;
    crate::collections::lemma_sorted(a.resources.dom());
    assert forall|j: u128| gone.contains(j) <==> #[trigger] a.resources.contains_key(j) && !a.active(j, now) by {
        crate::fabric_laws::lemma_filtered(crate::collections::sorted(a.resources.dom()), over, j);
        assert(a.resources.dom().contains(j) <==> crate::collections::sorted(a.resources.dom()).contains(j));
    }
    assert(gone.contains(k) <==> a.resources.contains_key(k) && !a.active(k, now));
    lemma_dismissed(a, gone, gone.len(), k);
    assert(gone.take(gone.len() as int) =~= gone);
}

proof fn lemma_dismissed(a: FabricModel, gone: Seq<u128>, n: nat, k: u128)
    requires
        n <= gone.len(),
    ensures
        ({
            let b = a.without_resources(gone, n);
            &&& b.resources.contains_key(k) <==> a.resources.contains_key(k) && !gone.take(n as int).contains(k)
            &&& b.resources.contains_key(k) ==> b.resources[k] == a.resources[k]
            &&& b.tasks == a.tasks
            &&& b.jobs == a.jobs
        }),
    decreases n,
{
    if n > 0 {
        lemma_dismissed(a, gone, (n - 1) as nat, k);
        let shorter = gone.take(n - 1);
        let longer = gone.take(n as int);
        assert(longer =~= shorter.push(gone[n - 1]));
        assert(longer.contains(k) <==> shorter.contains(k) || k == gone[n - 1]) by {
            if shorter.contains(k) {
                let i = choose|i: int| 0 <= i < shorter.len() && shorter[i] == k;
                assert(longer[i] == k);
            }
            assert(longer[n - 1] == gone[n - 1]);
        }
    }
}

/// A pending task can be begun on any active member; it then runs there, under a lease of the attempt
/// that names the present incarnation of the member and lasts for a while. No other task changes.
pub proof fn law_attempts_begin_on_members(
    a: FabricModel,
    task_id: TaskId,
    resource_id: ResourceId,
    now: u64,
    execution_id: ExecutionId,
)
    ensures
        ({
            let outcome = a.begun(task_id, resource_id, now, execution_id);
            let b = outcome.state;
            let member = a.resources.contains_key(resource_id.0) && now
                < a.resources[resource_id.0].expires_at_unix_ms;
            let waits = a.tasks.contains_key(task_id.0) && a.tasks[task_id.0].status is Pending;
            &&& outcome.answer is Ok <==> member && waits
            &&& outcome.answer matches Ok(lease) ==> {
                &&& lease.task_id == task_id
                &&& lease.execution_id == execution_id
                &&& lease.resource_id == resource_id
                &&& lease.resource_epoch == a.resources[resource_id.0].descriptor.epoch
                &&& lease.expires_at_unix_ms == until(now, a.execution_ttl_ms)
                &&& b.tasks.contains_key(task_id.0)
                &&& b.tasks[task_id.0].status == TaskStatusModel::Running(lease)
                &&& b.tasks[task_id.0].spec == a.tasks[task_id.0].spec
                &&& forall|k: u128|
                    k != task_id.0 ==> (#[trigger] b.tasks.contains_key(k) <==> a.tasks.contains_key(k))
                        && b.tasks[k] == a.tasks[k]
                &&& b == (FabricModel { tasks: b.tasks, ..a })
            }
        }),
{
}

/// A lease that owns its task is extended from now on; the attempt stays the same.
pub proof fn law_renewals_extend_leases(a: FabricModel, lease: ExecutionLease, now: u64)
    ensures
        ({
            let outcome = a.renewed(lease, now);
            let b = outcome.state;
            let held = a.tasks[lease.task_id.0].status;
            let owned = {
                &&& a.resources.contains_key(lease.resource_id.0)
                &&& now < a.resources[lease.resource_id.0].expires_at_unix_ms
                &&& a.resources[lease.resource_id.0].descriptor.epoch == lease.resource_epoch
                &&& a.tasks.contains_key(lease.task_id.0)
                &&& held matches TaskStatusModel::Running(current)
                &&& current.execution_id == lease.execution_id
                &&& current.resource_id == lease.resource_id
                &&& current.resource_epoch == lease.resource_epoch
                &&& now < current.expires_at_unix_ms
            };
            &&& outcome.answer is Ok <==> owned
            &&& outcome.answer matches Ok(next) ==> {
                &&& next.execution_id == lease.execution_id
                &&& next.resource_id == lease.resource_id
                &&& next.resource_epoch == lease.resource_epoch
                &&& next.task_id == held->Running_0.task_id
                &&& next.expires_at_unix_ms == until(now, a.execution_ttl_ms)
                &&& b.tasks[lease.task_id.0].status == TaskStatusModel::Running(next)
                &&& b.tasks[lease.task_id.0].spec == a.tasks[lease.task_id.0].spec
                &&& forall|k: u128|
                    k != lease.task_id.0 ==> (#[trigger] b.tasks.contains_key(k) <==> a.tasks.contains_key(k))
                        && b.tasks[k] == a.tasks[k]
                &&& b == (FabricModel { tasks: b.tasks, ..a })
            }
        }),
{
}

/// A task whose lease is over is set back to wait where its work may be done twice, and is left in
/// doubt where it may not. A task whose lease is not over is left alone.
pub proof fn law_lost_attempts_are_settled(a: FabricModel, now: u64, k: u128)
    requires
        a.wf(),
        a.tasks.contains_key(k),
    ensures
        ({
            let then = a.reaped(now).tasks[k].status;
            match a.tasks[k].status {
                TaskStatusModel::Running(lease) => if now < lease.expires_at_unix_ms {
                    then == a.tasks[k].status
                } else {
                    match a.tasks[k].spec.effects {
                        crate::tasks::EffectModel::Exclusive => then is Uncertain,
                        _ => then is Pending,
                    }
                },
                _ => then == a.tasks[k].status,
            }
        }),
{
    crate::fabric_laws::law_reaping_respects_effects(a, now, k);
}

/// A member on which a task runs under a lease that is not over.
pub open spec fn at_work(a: FabricModel, k: u128, now: u64) -> bool {
    exists|t: u128| #[trigger]
        a.tasks.contains_key(t) && (a.tasks[t].status matches TaskStatusModel::Running(lease)
            && lease.resource_id.0 == k && now < lease.expires_at_unix_ms)
}

/// Placement looks at every active member that has nothing to do, at no other, and at each of them
/// once; and it looks at all objects and links that are known.
pub proof fn law_placement_sees_every_idle_member(a: FabricModel, now: u64, k: u128)
    requires
        a.wf(),
    ensures
        ({
            let seen = a.context(now).resources;
            let idle = a.resources.contains_key(k) && now < a.resources[k].expires_at_unix_ms && !at_work(a, k, now);
            &&& idle ==> exists|i: int| 0 <= i < seen.len() && #[trigger] seen[i] == a.resources[k].descriptor
            &&& (exists|i: int| 0 <= i < seen.len() && (#[trigger] seen[i]).id.0 == k) ==> idle
            &&& forall|i: int, j: int| 0 <= i < j < seen.len() ==> (#[trigger] seen[i]).id.0 < (#[trigger] seen[j]).id.0
            &&& a.context(now).objects == a.objects
            &&& a.context(now).links == a.links
        }),
{
    let keys = a.idle_keys(now);
    let all = crate::collections::sorted(a.resources.dom());
    let free = |k: u128| a.active(k, now) && !a.busy(a.resources[k].descriptor.id, now);
    let seen = a.context(now).resources;
    crate::collections::lemma_sorted(a.resources.dom());
    lemma_filter_ascends(all, free);
    assert forall|j: u128| #[trigger] keys.contains(j) <==> a.resources.contains_key(j) && free(j) by {
        crate::fabric_laws::lemma_filtered(all, free, j);
        assert(a.resources.dom().contains(j) <==> all.contains(j));
    }
    assert forall|j: u128| #[trigger] a.resources.contains_key(j) implies (at_work(a, j, now) <==> a.busy(
        a.resources[j].descriptor.id,
        now,
    )) by {
        if at_work(a, j, now) {
            let t = choose|t: u128| #[trigger]
                a.tasks.contains_key(t) && (a.tasks[t].status matches TaskStatusModel::Running(lease)
                    && lease.resource_id.0 == j && now < lease.expires_at_unix_ms);
            assert(a.occupies(t, a.resources[j].descriptor.id, now));
        }
        if a.busy(a.resources[j].descriptor.id, now) {
            let t = choose|t: u128| #[trigger]
                a.tasks.contains_key(t) && a.occupies(t, a.resources[j].descriptor.id, now);
            assert(a.tasks.contains_key(t));
        }
    }
    assert forall|i: int| 0 <= i < seen.len() implies (#[trigger] seen[i]).id.0 == keys[i] && keys.contains(
        keys[i],
    ) by {
        assert(keys.contains(keys[i]));
        assert(a.resources.contains_key(keys[i]));
    }
    if a.resources.contains_key(k) && now < a.resources[k].expires_at_unix_ms && !at_work(a, k, now) {
        assert(keys.contains(k));
        let i = choose|i: int| 0 <= i < keys.len() && keys[i] == k;
        assert(seen[i] == a.resources[k].descriptor);
    }
}

/// What a filter keeps of an increasing sequence is increasing.
pub(crate) proof fn lemma_filter_ascends(s: Seq<u128>, keep: spec_fn(u128) -> bool)
    requires
        crate::collections::ascending(s),
    ensures
        crate::collections::ascending(s.filter(keep)),
    decreases s.len(),
{
    reveal(Seq::filter);
    if s.len() > 0 {
        let shorter = s.drop_last();
        lemma_filter_ascends(shorter, keep);
        let kept = shorter.filter(keep);
        if keep(s.last()) {
            assert forall|i: int| 0 <= i < kept.len() implies #[trigger] kept[i] < s.last() by {
                crate::fabric_laws::lemma_filtered(shorter, keep, kept[i]);
                assert(kept.contains(kept[i]));
                let j = choose|j: int| 0 <= j < shorter.len() && shorter[j] == kept[i];
                assert(s[j] < s[s.len() - 1]);
            }
        }
    }
}

/// The tasks that wait are just those that are pending, each once and by identifier.
pub proof fn law_pending_tasks_are_listed(a: FabricModel, k: u128)
    ensures
        a.pending_keys().contains(k) <==> a.tasks.contains_key(k) && a.tasks[k].status is Pending,
        forall|i: int, j: int|
            0 <= i < j < a.pending_keys().len() ==> #[trigger] a.pending_keys()[i] < #[trigger] a.pending_keys()[j],
{
    let all = crate::collections::sorted(a.tasks.dom());
    let waits = |k: u128| a.tasks[k].status is Pending;
    crate::collections::lemma_sorted(a.tasks.dom());
    crate::fabric_laws::lemma_filtered(all, waits, k);
    lemma_filter_ascends(all, waits);
    assert(a.tasks.dom().contains(k) <==> all.contains(k));
}

/// A task that is accepted waits, as it was submitted; no task that was there changes.
pub proof fn law_submitted_tasks_wait(a: FabricModel, task: TaskModel)
    ensures
        ({
            let outcome = a.submitted(task);
            let b = outcome.state;
            &&& outcome.answer is Ok ==> {
                &&& outcome.answer == Ok::<TaskId, FabricErrorModel>(task.id)
                &&& !a.tasks.contains_key(task.id.0)
                &&& b.tasks.contains_key(task.id.0)
                &&& b.tasks[task.id.0].spec == task
                &&& b.tasks[task.id.0].status is Pending
                &&& forall|k: u128|
                    k != task.id.0 ==> (#[trigger] b.tasks.contains_key(k) <==> a.tasks.contains_key(k))
                        && b.tasks[k] == a.tasks[k]
                &&& b == (FabricModel { tasks: b.tasks, ..a })
            }
            &&& task.pipeline is None ==> (outcome.answer is Ok <==> !a.tasks.contains_key(task.id.0))
        }),
{
}

/// A replica that is announced is one location more, and no other; no other object changes.
pub proof fn law_announced_replicas_are_one_more(
    a: FabricModel,
    object_id: ObjectId,
    resource_id: ResourceId,
    place: ResourceId,
)
    requires
        a.objects.contains_key(object_id.0),
    ensures
        ({
            let b = a.located(object_id, resource_id).state;
            &&& b.objects[object_id.0].locations.contains(place) <==> place == resource_id
                || a.objects[object_id.0].locations.contains(place)
            &&& b.objects[object_id.0] == (ObjectModel {
                locations: b.objects[object_id.0].locations,
                ..a.objects[object_id.0]
            })
            &&& forall|k: u128|
                k != object_id.0 ==> (#[trigger] b.objects.contains_key(k) <==> a.objects.contains_key(k))
                    && b.objects[k] == a.objects[k]
            &&& b == (FabricModel { objects: b.objects, ..a })
        }),
{
    let one = seq![resource_id];
    assert(one.take(1) =~= one);
    assert(one[0] == resource_id);
    crate::fabric_laws::lemma_merged_locations_grow(
        a.objects[object_id.0].locations,
        one,
        1,
        place,
    );
}

/// A resource can run a task only if it has speed, as much memory as is asked for, every feature, the
/// architecture where one is asked for, and for an accelerator a group of devices of the kind that has
/// as many as are asked for, each with as much memory; and then it can.
pub proof fn law_requirements_are_met(resource: ResourceModel, requirements: RequirementsModel)
    ensures
        resource.supported(requirements) <==> {
            &&& resource.performance_score.nan() || crate::binary64::Binary64 { bits: 0 }.less(
                resource.performance_score,
            )
            &&& requirements.min_memory_bytes <= resource.memory_bytes
            &&& forall|feature: Seq<char>| #[trigger]
                requirements.required_features.contains(feature) ==> resource.features.contains(feature)
            &&& requirements.architecture is None || requirements.architecture == Some(resource.architecture)
            &&& requirements.accelerator is None || exists|i: int|
                0 <= i < resource.accelerators.len() && (#[trigger] resource.accelerators[i]).kind
                    == requirements.accelerator.unwrap().kind && requirements.accelerator.unwrap().min_count
                    <= resource.accelerators[i].count
                    && requirements.accelerator.unwrap().min_memory_bytes_per_device
                    <= resource.accelerators[i].memory_bytes_per_device
        },
{
    if resource.supported(requirements) {
        if let Some(required) = requirements.accelerator {
            let i = choose|i: int|
                0 <= i < resource.accelerators.len() && required.met_by(#[trigger] resource.accelerators[i]);
            assert(resource.accelerators[i].kind == required.kind);
        }
    }
    if requirements.accelerator is Some && exists|i: int|
        0 <= i < resource.accelerators.len() && (#[trigger] resource.accelerators[i]).kind
            == requirements.accelerator.unwrap().kind && requirements.accelerator.unwrap().min_count
            <= resource.accelerators[i].count && requirements.accelerator.unwrap().min_memory_bytes_per_device
            <= resource.accelerators[i].memory_bytes_per_device {
        let required = requirements.accelerator.unwrap();
        let i = choose|i: int|
            0 <= i < resource.accelerators.len() && (#[trigger] resource.accelerators[i]).kind == required.kind
                && required.min_count <= resource.accelerators[i].count
                && required.min_memory_bytes_per_device <= resource.accelerators[i].memory_bytes_per_device;
        assert(required.met_by(resource.accelerators[i]));
    }
    assert(requirements.required_features.subset_of(resource.features) <==> forall|feature: Seq<char>| #[trigger]
        requirements.required_features.contains(feature) ==> resource.features.contains(feature));
}

/// What is published under an identity stays what it is: an object of the same identity is refused just
/// where its size, its digest, its encoding or its producer is another. Where it is accepted, its
/// holders are those that were known and those that are named.
pub proof fn law_objects_stay_what_they_are(a: FabricModel, object: ObjectModel, place: ResourceId)
    ensures
        ({
            let outcome = a.published(object);
            let known = a.objects.contains_key(object.id.0);
            let held = a.objects[object.id.0];
            let now = outcome.state.objects[object.id.0];
            &&& known && held.id == object.id ==> (outcome.answer is Err <==> held.size_bytes != object.size_bytes
                || held.digest != object.digest || held.encoding != object.encoding || held.producer
                != object.producer)
            &&& outcome.answer is Err ==> known && outcome.state == a
            &&& outcome.answer is Ok && !known ==> now == object
            &&& outcome.answer is Ok && known ==> now == (ObjectModel { locations: now.locations, ..held })
            &&& outcome.answer is Ok && known ==> (now.locations.contains(place) <==> held.locations.contains(place)
                || object.locations.contains(place))
        }),
{
    if a.objects.contains_key(object.id.0) {
        let held = a.objects[object.id.0].locations;
        lemma_merged(held, object.locations, object.locations.len(), place);
        assert(object.locations.take(object.locations.len() as int) =~= object.locations);
    }
}

proof fn lemma_merged(locations: Seq<ResourceId>, others: Seq<ResourceId>, k: nat, place: ResourceId)
    requires
        k <= others.len(),
    ensures
        crate::fabric_model::merged_locations(locations, others, k).contains(place) <==> locations.contains(place)
            || others.take(k as int).contains(place),
    decreases k,
{
    if k == 0 {
        assert(!others.take(0).contains(place));
    } else {
        lemma_merged(locations, others, (k - 1) as nat, place);
        let before = crate::fabric_model::merged_locations(locations, others, (k - 1) as nat);
        let shorter = others.take(k - 1);
        let longer = others.take(k as int);
        let more = others[k - 1];
        assert(longer =~= shorter.push(more));
        if shorter.contains(place) {
            let i = choose|i: int| 0 <= i < shorter.len() && shorter[i] == place;
            assert(longer[i] == place);
        }
        assert(longer[k - 1] == more);
        if before.contains(place) {
            let i = choose|i: int| 0 <= i < before.len() && before[i] == place;
            assert(before.push(more)[i] == place);
        }
        assert(before.push(more)[before.len() as int] == more);
    }
}

}

//! What holds of the answers that members and clients are given.

use vstd::prelude::*;

use crate::coordinator_model::{ApiErrorModel, CoordinatorModel};
use crate::fabric_model::FabricModel;
use crate::ids::{ExecutionId, JobId, ObjectId, ResourceId, TaskId};
use crate::jobs::LogicalJobModel;
use crate::objects::ObjectModel;
use crate::planner::PlanModel;
use crate::protocol::{
    AssignmentModel,
    LinkMeasurement,
    RegisterReplicaRequest,
    ReportLinkMeasurementRequest,
    ResolvedModel,
    WorkPollRequest,
};
use crate::resources::ResourceModel;
use crate::status::{FabricErrorModel, TaskStatusModel};
use crate::topology::LinkProfile;
use crate::validation::PlanErrorModel;

verus! {

/// A task that waits and that placement, as things are, sends to a resource.
pub open spec fn meant_for(fabric: FabricModel, task: u128, resource_id: ResourceId, now: u64) -> bool {
    &&& fabric.tasks.contains_key(task)
    &&& fabric.tasks[task].status is Pending
    &&& fabric.scheduled(TaskId(task), now) matches Ok(decision)
    &&& decision.resource_id == resource_id
}

proof fn lemma_first_offer(fabric: FabricModel, tasks: Seq<u128>, i: int, resource_id: ResourceId, now: u64)
    requires
        0 <= i <= tasks.len(),
    ensures
        match crate::coordinator_model::offer_from(fabric, tasks, i, resource_id, now) {
            Some(task) => exists|j: int|
                i <= j < tasks.len() && #[trigger] tasks[j] == task && crate::coordinator_model::suits(
                    fabric,
                    task,
                    resource_id,
                    now,
                ) && forall|l: int|
                    i <= l < j ==> !crate::coordinator_model::suits(
                        fabric,
                        #[trigger] tasks[l],
                        resource_id,
                        now,
                    ),
            None => forall|j: int|
                i <= j < tasks.len() ==> !crate::coordinator_model::suits(
                    fabric,
                    #[trigger] tasks[j],
                    resource_id,
                    now,
                ),
        },
    decreases tasks.len() - i,
{
    if i < tasks.len() {
        if crate::coordinator_model::suits(fabric, tasks[i], resource_id, now) {
            assert(tasks[i] == tasks[i]);
        } else {
            lemma_first_offer(fabric, tasks, i + 1, resource_id, now);
        }
    }
}

/// An input as an agent is told of it: what is known of the object, and every member that holds it
/// and has an address, with the place of the blob there.
pub open spec fn described(
    objects: Map<u128, ObjectModel>,
    endpoints: Map<u128, Seq<char>>,
    object_id: ObjectId,
    input: ResolvedModel,
) -> bool {
    &&& objects.contains_key(object_id.0)
    &&& input.metadata == objects[object_id.0]
    &&& input.replicas.len() > 0
    &&& forall|l: int|
        0 <= l < input.metadata.locations.len() && endpoints.contains_key(
            (#[trigger] input.metadata.locations[l]).0,
        ) ==> offered(input, endpoints, input.metadata.locations[l])
    &&& forall|r: int|
        0 <= r < input.replicas.len() ==> input.metadata.locations.contains(
            (#[trigger] input.replicas[r]).resource_id,
        ) && endpoints.contains_key(input.replicas[r].resource_id.0)
}

/// A holder is among the places of an input, at its address and under the digest of the object.
pub open spec fn offered(input: ResolvedModel, endpoints: Map<u128, Seq<char>>, holder: ResourceId) -> bool {
    exists|r: int|
        {
            &&& 0 <= r < input.replicas.len()
            &&& (#[trigger] input.replicas[r]).resource_id == holder
            &&& input.metadata.digest matches Some(digest)
            &&& exists|suffix: Seq<char>| #[trigger]
                sha256(suffix) == digest && input.replicas[r].url == endpoints[holder.0] + "/v1/blobs/"@ + suffix
        }
}

/// A digest by its hexadecimal digits.
pub open spec fn sha256(suffix: Seq<char>) -> Seq<char> {
    "sha256:"@ + suffix
}

proof fn lemma_every_holder_is_a_replica(
    locations: Seq<ResourceId>,
    endpoints: Map<u128, Seq<char>>,
    suffix: Seq<char>,
    k: nat,
    l: int,
)
    requires
        0 <= l < k <= locations.len(),
        endpoints.contains_key(locations[l].0),
    ensures
        ({
            let replicas = crate::coordinator_model::replicas_of(locations, endpoints, suffix, k);
            exists|r: int|
                0 <= r < replicas.len() && (#[trigger] replicas[r]).resource_id == locations[l]
                    && replicas[r].url == endpoints[locations[l].0] + "/v1/blobs/"@ + suffix
        }),
    decreases k,
{
    let replicas = crate::coordinator_model::replicas_of(locations, endpoints, suffix, k);
    let before = crate::coordinator_model::replicas_of(locations, endpoints, suffix, (k - 1) as nat);
    if l == k - 1 {
        assert(replicas[before.len() as int].resource_id == locations[l]);
    } else {
        lemma_every_holder_is_a_replica(locations, endpoints, suffix, (k - 1) as nat, l);
        let r = choose|r: int|
            0 <= r < before.len() && (#[trigger] before[r]).resource_id == locations[l] && before[r].url
                == endpoints[locations[l].0] + "/v1/blobs/"@ + suffix;
        assert(replicas[r] == before[r]);
    }
}

proof fn lemma_resolved_input(
    objects: Map<u128, ObjectModel>,
    endpoints: Map<u128, Seq<char>>,
    object_id: ObjectId,
)
    ensures
        crate::coordinator_model::resolved_input(objects, endpoints, object_id) matches Ok(input)
            ==> described(objects, endpoints, object_id, input),
{
    if let Ok(input) = crate::coordinator_model::resolved_input(objects, endpoints, object_id) {
        let metadata = objects[object_id.0];
        let digest = metadata.digest.unwrap();
        let suffix = crate::text::after_prefix(digest, "sha256:"@).unwrap();
        assert(sha256(suffix) =~= digest);
        crate::coordinator::law_replicas_are_reachable_holders(
            metadata.locations,
            endpoints,
            suffix,
            metadata.locations.len(),
        );
        assert forall|l: int|
            0 <= l < input.metadata.locations.len() && endpoints.contains_key(
                (#[trigger] input.metadata.locations[l]).0,
            ) implies offered(input, endpoints, input.metadata.locations[l]) by {
            lemma_every_holder_is_a_replica(
                metadata.locations,
                endpoints,
                suffix,
                metadata.locations.len(),
                l,
            );
            let r = choose|r: int|
                0 <= r < input.replicas.len() && (#[trigger] input.replicas[r]).resource_id
                    == metadata.locations[l] && input.replicas[r].url == endpoints[metadata.locations[l].0]
                    + "/v1/blobs/"@ + suffix;
            assert(sha256(suffix) == digest && input.replicas[r].url == endpoints[metadata.locations[l].0]
                + "/v1/blobs/"@ + suffix);
            assert(input.replicas[r].resource_id == metadata.locations[l]);
        }
    }
}

/// The inputs that a task takes are described one by one and in its order; they are all described, or
/// none is.
pub proof fn law_inputs_are_described_in_order(
    objects: Map<u128, ObjectModel>,
    endpoints: Map<u128, Seq<char>>,
    inputs: Seq<ObjectId>,
    k: nat,
)
    requires
        k <= inputs.len(),
    ensures
        crate::coordinator_model::resolved_inputs(objects, endpoints, inputs, k) matches Ok(shown) ==> {
            &&& shown.len() == k
            &&& forall|i: int|
                0 <= i < k ==> described(objects, endpoints, #[trigger] inputs[i], shown[i])
        },
    decreases k,
{
    if k > 0 {
        law_inputs_are_described_in_order(objects, endpoints, inputs, (k - 1) as nat);
        lemma_resolved_input(objects, endpoints, inputs[k - 1]);
    }
}

/// A member that asks for work gets, of the tasks that wait and that placement sends to it, the one
/// with the least identifier, under a lease of its own and with what it needs to fetch the inputs; it
/// gets nothing only where there is no such task. Where it is refused, nothing changes.
pub proof fn law_members_get_what_is_meant_for_them(
    c: CoordinatorModel,
    resource_id: ResourceId,
    now: u64,
    execution_id: ExecutionId,
)
    ensures
        ({
            let reply = c.assigned(resource_id, now, execution_id);
            &&& reply.answer matches Ok(None) ==> reply.state == c
            &&& reply.answer matches Err(_) ==> reply.state == c
            &&& reply.answer == Ok::<Option<AssignmentModel>, ApiErrorModel>(None) <==> forall|k: u128|
                !#[trigger] meant_for(c.fabric, k, resource_id, now)
            &&& reply.answer matches Ok(Some(given)) ==> {
                let key = given.lease.task_id.0;
                &&& meant_for(c.fabric, key, resource_id, now)
                &&& forall|k: u128| #[trigger] meant_for(c.fabric, k, resource_id, now) ==> key <= k
                &&& given.task == c.fabric.tasks[key].spec
                &&& given.lease.resource_id == resource_id
                &&& given.lease.execution_id == execution_id
                &&& reply.state.fabric.tasks[key].status == TaskStatusModel::Running(given.lease)
                &&& given.inputs.len() == given.task.inputs.len()
                &&& forall|i: int|
                    0 <= i < given.inputs.len() ==> described(
                        c.fabric.objects,
                        c.endpoints,
                        given.task.inputs[i],
                        #[trigger] given.inputs[i],
                    )
                &&& reply.state.endpoints == c.endpoints
                &&& reply.state.manual == c.manual
            }
        }),
{
    let tasks = c.fabric.pending_keys();
    let reply = c.assigned(resource_id, now, execution_id);
    lemma_first_offer(c.fabric, tasks, 0, resource_id, now);
    assert forall|k: u128| #[trigger] meant_for(c.fabric, k, resource_id, now) implies tasks.contains(k)
        && crate::coordinator_model::suits(c.fabric, k, resource_id, now) by {
        crate::membership_laws::law_pending_tasks_are_listed(c.fabric, k);
    }
    crate::membership_laws::law_pending_tasks_are_listed(c.fabric, 0);
    match crate::coordinator_model::offer_from(c.fabric, tasks, 0, resource_id, now) {
        None => {
            assert forall|k: u128| !#[trigger] meant_for(c.fabric, k, resource_id, now) by {
                if meant_for(c.fabric, k, resource_id, now) {
                    assert(tasks.contains(k));
                }
            }
        },
        Some(key) => {
            let j = choose|j: int|
                0 <= j < tasks.len() && #[trigger] tasks[j] == key && crate::coordinator_model::suits(
                    c.fabric,
                    key,
                    resource_id,
                    now,
                ) && forall|l: int|
                    0 <= l < j ==> !crate::coordinator_model::suits(
                        c.fabric,
                        #[trigger] tasks[l],
                        resource_id,
                        now,
                    );
            assert(tasks.contains(key));
            crate::membership_laws::law_pending_tasks_are_listed(c.fabric, key);
            assert(meant_for(c.fabric, key, resource_id, now));
            assert forall|k: u128| #[trigger] meant_for(c.fabric, k, resource_id, now) implies key <= k by {
                assert(tasks.contains(k));
                let l = choose|l: int| 0 <= l < tasks.len() && tasks[l] == k;
                if l < j {
                    assert(!crate::coordinator_model::suits(c.fabric, tasks[l], resource_id, now));
                }
            }
            let task = c.fabric.tasks[key].spec;
            law_inputs_are_described_in_order(
                c.fabric.objects,
                c.endpoints,
                task.inputs,
                task.inputs.len(),
            );
            crate::membership_laws::law_attempts_begin_on_members(
                c.fabric,
                TaskId(key),
                resource_id,
                now,
                execution_id,
            );
            if let Ok(Some(given)) = reply.answer {
                assert forall|i: int| 0 <= i < given.inputs.len() implies described(
                    c.fabric.objects,
                    c.endpoints,
                    given.task.inputs[i],
                    #[trigger] given.inputs[i],
                ) by {
                    assert(task.inputs[i] == given.task.inputs[i]);
                }
            }
        },
    }
}

/// Only a member in its present incarnation gets work: a resource that is none is told that it is not
/// found, and an incarnation that is over that it is in conflict. Neither changes anything.
pub proof fn law_only_members_are_given_work(
    c: CoordinatorModel,
    request: WorkPollRequest,
    now: u64,
    ids: Seq<Seq<Seq<TaskId>>>,
    execution_id: ExecutionId,
)
    ensures
        ({
            let reply = c.polled(request, now, ids, execution_id);
            let known = c.fabric.resources.contains_key(request.resource_id.0);
            let member = c.fabric.resources[request.resource_id.0];
            let active = known && now < member.expires_at_unix_ms;
            &&& !active ==> reply.state == c && (reply.answer matches Err(error) && error.status == 404)
            &&& active && member.descriptor.epoch != request.epoch ==> reply.state == c && (reply.answer matches Err(
                error,
            ) && error.status == 409)
            &&& active && member.descriptor.epoch == request.epoch ==> {
                let ready = c.fabric.refreshed(now, ids);
                &&& ready.answer matches Ok(_) ==> reply == (CoordinatorModel {
                    fabric: ready.state,
                    ..c
                }).assigned(request.resource_id, now, execution_id)
                &&& ready.answer is Err ==> reply.answer is Err && reply.state.fabric == ready.state
            }
        }),
{
}

/// A resource that registers is a member from then on under its address, which has neither white
/// space around it nor a slash at its end and is one of HTTP; another address is refused, and then
/// nothing changes.
pub proof fn law_members_register_with_an_address(
    c: CoordinatorModel,
    descriptor: ResourceModel,
    endpoint: Seq<char>,
    now: u64,
)
    ensures
        ({
            let reply = c.registered(descriptor, endpoint, now);
            &&& reply.answer matches Err(error) ==> error.status == 400 && reply.state == c
            &&& reply.answer matches Ok(lease) ==> {
                let address = reply.state.endpoints[descriptor.id.0];
                &&& reply.state.endpoints.contains_key(descriptor.id.0)
                &&& crate::text::begins_with(address, "http://"@) || crate::text::begins_with(address, "https://"@)
                &&& address.len() > 0 && address.last() != '/'
                &&& exists|before: Seq<char>, after: Seq<char>, slashes: Seq<char>|
                    {
                        &&& #[trigger] (before + address + slashes + after) == endpoint
                        &&& crate::text::blank(before)
                        &&& crate::text::blank(after)
                        &&& crate::text_laws::only(slashes, '/')
                    }
                &&& reply.state.fabric == c.fabric.registered(descriptor, now)
                &&& lease == c.fabric.membership(descriptor, now)
                &&& reply.state.manual == c.manual
                &&& forall|k: u128|
                    k != descriptor.id.0 ==> (#[trigger] reply.state.endpoints.contains_key(k)
                        <==> c.endpoints.contains_key(k)) && reply.state.endpoints[k] == c.endpoints[k]
            }
        }),
{
    let reply = c.registered(descriptor, endpoint, now);
    let inner = crate::text::trimmed(endpoint);
    let address = crate::text::without_trailing_slashes(inner);
    let (before, after) = crate::text_laws::law_trimming_takes_white_space_only(endpoint);
    let slashes = crate::text_laws::law_only_slashes_are_taken(inner);
    assert(before + address + slashes + after =~= endpoint);
    if reply.answer is Ok {
        reveal_strlit("http://");
        reveal_strlit("https://");
        assert(address.len() > 0);
    }
}

/// Every active member is shown, no other, and each once; it is shown with the address that it has,
/// if it has one.
pub proof fn law_every_active_member_is_shown(c: CoordinatorModel, now: u64, k: u128)
    requires
        c.fabric.wf(),
    ensures
        ({
            let shown = c.listed(now);
            let active = c.fabric.resources.contains_key(k) && now < c.fabric.resources[k].expires_at_unix_ms;
            &&& active ==> exists|i: int|
                0 <= i < shown.len() && (#[trigger] shown[i]).descriptor == c.fabric.resources[k].descriptor
            &&& (exists|i: int| 0 <= i < shown.len() && (#[trigger] shown[i]).descriptor.id.0 == k) ==> active
            &&& forall|i: int, j: int|
                0 <= i < j < shown.len() ==> (#[trigger] shown[i]).descriptor.id.0 < (
                #[trigger] shown[j]).descriptor.id.0
            &&& forall|i: int|
                0 <= i < shown.len() ==> {
                    let id = (#[trigger] shown[i]).descriptor.id.0;
                    &&& shown[i].data_endpoint is Some <==> c.endpoints.contains_key(id)
                    &&& shown[i].data_endpoint matches Some(address) ==> address == c.endpoints[id]
                }
        }),
{
    let a = c.fabric;
    let keys = a.active_keys(now);
    let all = crate::collections::sorted(a.resources.dom());
    let works = |k: u128| a.active(k, now);
    let shown = c.listed(now);
    crate::collections::lemma_sorted(a.resources.dom());
    crate::membership_laws::lemma_filter_ascends(all, works);
    assert forall|j: u128| #[trigger] keys.contains(j) <==> a.resources.contains_key(j) && works(j) by {
        crate::fabric_laws::lemma_filtered(all, works, j);
        assert(a.resources.dom().contains(j) <==> all.contains(j));
    }
    assert forall|i: int| 0 <= i < keys.len() implies (#[trigger] shown[i]).descriptor.id.0 == keys[i]
        && a.active(keys[i], now) by {
        assert(keys.contains(keys[i]));
    }
    if a.active(k, now) {
        assert(keys.contains(k));
        let i = choose|i: int| 0 <= i < keys.len() && keys[i] == k;
        assert(shown[i].descriptor == a.resources[k].descriptor);
    }
}

/// What a member measures of the way to another counts from then on, unless the link was set by hand:
/// the link is as measured, or there is none where the other could not be reached. No other link
/// changes, and nothing but links does.
pub proof fn law_measurements_count(
    c: CoordinatorModel,
    report: ReportLinkMeasurementRequest,
    now: u64,
    a: ResourceId,
    b: ResourceId,
)
    ensures
        ({
            let from = report.reporter_resource_id;
            let to = report.peer_resource_id;
            let reply = c.measured(report, now);
            let found = crate::topology::link_between(reply.state.fabric.links, from, to);
            &&& reply.answer is Err ==> reply.state == c
            &&& reply.answer is Ok ==> {
                &&& c.fabric.resources.contains_key(from.0)
                &&& now < c.fabric.resources[from.0].expires_at_unix_ms
                &&& c.fabric.resources[from.0].descriptor.epoch == report.reporter_epoch
                &&& reply.state.fabric == (FabricModel { links: reply.state.fabric.links, ..c.fabric })
                &&& reply.state.endpoints == c.endpoints
                &&& reply.state.manual == c.manual
                &&& !c.by_hand(from, to) ==> match report.measurement {
                    LinkMeasurement::Reachable { rtt_ms, bandwidth_mbps } => found == Some(
                        LinkProfile { from, to, rtt_ms, bandwidth_mbps },
                    ),
                    LinkMeasurement::Unreachable => found is None,
                }
                &&& !((a == from && b == to) || (a == to && b == from)) ==> crate::topology::link_between(
                    reply.state.fabric.links,
                    a,
                    b,
                ) == crate::topology::link_between(c.fabric.links, a, b)
            }
        }),
{
    let from = report.reporter_resource_id;
    let to = report.peer_resource_id;
    let link = match report.measurement {
        LinkMeasurement::Reachable { rtt_ms, bandwidth_mbps } => LinkProfile {
            from,
            to,
            rtt_ms,
            bandwidth_mbps,
        },
        LinkMeasurement::Unreachable => LinkProfile {
            from,
            to,
            rtt_ms: crate::binary64::Binary64 { bits: 0 },
            bandwidth_mbps: crate::binary64::Binary64 { bits: 0 },
        },
    };
    crate::fabric_laws::law_links_are_replaced(c.fabric, link, from, to);
    crate::fabric_laws::law_links_are_replaced(c.fabric, link, a, b);
}

proof fn lemma_forgotten(c: CoordinatorModel, ids: Seq<u128>, n: nat, k: u128, a: ResourceId, b: ResourceId)
    requires
        n <= ids.len(),
    ensures
        ({
            let d = c.forgotten(ids, n);
            &&& d.fabric == c.fabric
            &&& d.endpoints.contains_key(k) <==> c.endpoints.contains_key(k) && !ids.take(n as int).contains(k)
            &&& d.endpoints.contains_key(k) ==> d.endpoints[k] == c.endpoints[k]
            &&& d.by_hand(a, b) <==> c.by_hand(a, b) && !ids.take(n as int).contains(a.0) && !ids.take(
                n as int,
            ).contains(b.0)
        }),
    decreases n,
{
    if n > 0 {
        lemma_forgotten(c, ids, (n - 1) as nat, k, a, b);
        let before = c.forgotten(ids, (n - 1) as nat);
        let d = c.forgotten(ids, n);
        let gone = ids[n - 1];
        let shorter = ids.take(n - 1);
        let longer = ids.take(n as int);
        assert(longer =~= shorter.push(gone));
        assert forall|x: u128| #[trigger] longer.contains(x) <==> shorter.contains(x) || x == gone by {
            if shorter.contains(x) {
                let i = choose|i: int| 0 <= i < shorter.len() && shorter[i] == x;
                assert(longer[i] == x);
            }
            assert(longer[n - 1] == gone);
        }
        let kept = crate::coordinator_model::apart_from(ResourceId(gone));
        if before.by_hand(a, b) && a.0 != gone && b.0 != gone {
            let i = choose|i: int|
                0 <= i < before.manual.len() && crate::coordinator_model::pairs(
                    #[trigger] before.manual[i],
                    a,
                    b,
                );
            assert(kept(before.manual[i]));
            assert(before.manual.contains(before.manual[i]));
            crate::fabric_laws::lemma_filtered(before.manual, kept, before.manual[i]);
            let j = choose|j: int| 0 <= j < d.manual.len() && d.manual[j] == before.manual[i];
            assert(crate::coordinator_model::pairs(d.manual[j], a, b));
        }
        if d.by_hand(a, b) {
            let j = choose|j: int|
                0 <= j < d.manual.len() && crate::coordinator_model::pairs(#[trigger] d.manual[j], a, b);
            assert(d.manual.contains(d.manual[j]));
            crate::fabric_laws::lemma_filtered(before.manual, kept, d.manual[j]);
            let i = choose|i: int| 0 <= i < before.manual.len() && before.manual[i] == d.manual[j];
            assert(crate::coordinator_model::pairs(before.manual[i], a, b));
        }
    }
}

/// When members are dismissed whose time is over, just their addresses are forgotten, and just the
/// links set by hand of which they are an end; what is left to decide of their work is decided as when
/// leases expire.
pub proof fn law_addresses_go_with_their_members(
    c: CoordinatorModel,
    now: u64,
    k: u128,
    a: ResourceId,
    b: ResourceId,
)
    ensures
        ({
            let d = c.maintained(now);
            let over = |x: u128| c.fabric.resources.contains_key(x) && !c.fabric.active(x, now);
            &&& d.endpoints.contains_key(k) <==> c.endpoints.contains_key(k) && !over(k)
            &&& d.endpoints.contains_key(k) ==> d.endpoints[k] == c.endpoints[k]
            &&& d.by_hand(a, b) <==> c.by_hand(a, b) && !over(a.0) && !over(b.0)
            &&& d.fabric == c.fabric.without_resources(
                c.fabric.expired(now),
                c.fabric.expired(now).len(),
            ).reaped(now)
        }),
{
    let gone = c.fabric.expired(now);
    lemma_forgotten(c, gone, gone.len(), k, a, b);
    assert(gone.take(gone.len() as int) =~= gone);
    let left = c.forgotten(gone, gone.len());
    assert(c.maintained(now).manual == left.manual);
    assert(c.maintained(now).by_hand(a, b) <==> left.by_hand(a, b));
    crate::membership_laws::law_expired_members_leave(c.fabric, now, k);
    crate::membership_laws::law_expired_members_leave(c.fabric, now, a.0);
    crate::membership_laws::law_expired_members_leave(c.fabric, now, b.0);
}

/// Only an active member becomes a holder of an object, and an object is published only with the
/// digest of its content. What is refused changes nothing.
pub proof fn law_holders_are_members_and_contents_have_digests(
    c: CoordinatorModel,
    request: RegisterReplicaRequest,
    object: ObjectModel,
    now: u64,
)
    ensures
        ({
            let reply = c.replicated(request, now);
            let known = c.fabric.objects.contains_key(request.object_id.0);
            let active = c.fabric.active(request.resource_id.0, now);
            &&& reply.answer is Ok <==> known && active
            &&& reply.answer is Ok ==> reply.state.fabric.objects[request.object_id.0].locations.contains(
                request.resource_id,
            )
            &&& reply.answer matches Err(error) ==> error.status == 404 && reply.state == c
        }),
        ({
            let reply = c.published(object);
            &&& object.digest is None ==> reply.state == c && (reply.answer matches Err(error) && error.status
                == 400)
            &&& reply.answer is Err ==> reply.state == c
            &&& reply.answer is Ok ==> reply.state.fabric.objects.contains_key(object.id.0)
                && reply.state.fabric.objects[object.id.0].digest is Some
        }),
{
    if c.fabric.objects.contains_key(request.object_id.0) {
        crate::membership_laws::law_announced_replicas_are_one_more(
            c.fabric,
            request.object_id,
            request.resource_id,
            request.resource_id,
        );
    }
}

/// What a client is told of a refusal: that something is not found just where it names something that
/// is not there; that the work cannot be placed just where no resource can do it; that the request is
/// bad just where what it asks for is not sound; and that it is in conflict with the state otherwise.
pub proof fn law_refusals_are_told_apart(error: FabricErrorModel)
    ensures
        ({
            let told = crate::coordinator_model::refused(error);
            let absent = error is UnknownTask || error is UnknownObject || error is UnknownJob
                || error is ResourceNotActive;
            let unsound = error is InvalidTask || error is InvalidCooperativeJob || error is InvalidLogicalJob;
            &&& told.status == 404 <==> absent
            &&& told.status == 400 <==> unsound
            &&& told.status == 422 <==> error is Scheduling
            &&& told.status == 409 <==> !absent && !unsound && !(error is Scheduling)
            &&& told.message == error.description()
        }),
{
}

/// A job is shown as it was submitted, with all of its roles in their order: what each waits for, how far
/// it has come, and what was chosen for it, if anything was. What is not there is not found.
pub proof fn law_jobs_are_shown_role_by_role(c: CoordinatorModel, job_id: JobId, task_id: TaskId)
    ensures
        match c.job_view(job_id) {
            Err(error) => error.status == 404 && !c.fabric.jobs.contains_key(job_id.0),
            Ok(shown) => {
                let record = c.fabric.jobs[job_id.0];
                let roles = crate::fabric_model::role_graph_of(record.definition);
                &&& c.fabric.jobs.contains_key(job_id.0)
                &&& shown.job == record.definition
                &&& shown.status == record.status()
                &&& shown.roles.len() == roles.len()
                &&& forall|i: int|
                    0 <= i < roles.len() ==> {
                        let role = #[trigger] shown.roles[i];
                        let chosen = record.selections[role.name];
                        &&& role.name == roles[i].name
                        &&& role.depends_on == roles[i].depends_on
                        &&& role.status == record.roles[role.name]
                        &&& role.implementation is Some <==> record.selections.contains_key(role.name)
                        &&& record.selections.contains_key(role.name) ==> {
                            &&& role.implementation == Some(chosen.implementation)
                            &&& role.planned_resource == Some(chosen.planned_resource)
                            &&& role.estimated_total_ms == Some(chosen.estimated_total_ms)
                            &&& role.fusion == chosen.fusion
                        }
                        &&& record.shards.contains_key(role.name) ==> role.shards == record.shards[role.name]
                        &&& !record.shards.contains_key(role.name) ==> role.shards.len() == 0
                    }
            },
        },
        match c.task_view(task_id) {
            Err(error) => error.status == 404 && !c.fabric.tasks.contains_key(task_id.0),
            Ok(shown) => {
                &&& c.fabric.tasks.contains_key(task_id.0)
                &&& shown.task == c.fabric.tasks[task_id.0].spec
                &&& shown.status == c.fabric.tasks[task_id.0].status
            },
        },
{
}

/// A link is set by hand just where it carries something: its round-trip time may be nothing but not
/// less, and its bandwidth has to be more than nothing.
pub proof fn law_links_that_carry_nothing_are_refused(c: CoordinatorModel, link: LinkProfile)
    requires
        !link.rtt_ms.nan(),
        !link.bandwidth_mbps.nan(),
    ensures
        c.overridden(link).answer is Ok <==> link.rtt_ms.rank() >= 0 && link.bandwidth_mbps.rank() > 0,
        c.overridden(link).answer matches Err(error) ==> error.status == 400 && c.overridden(link).state == c,
{
}

/// A plan that cannot be made is answered as a bad request just where the job is not sound, and as one
/// that cannot be met just where some role has nothing to run it; a plan that can be made is the one over
/// the members that have nothing to do now. A task or a job is looked up under a text only where the text
/// is an identity.
pub proof fn law_plans_are_of_the_idle_members(c: CoordinatorModel, job: LogicalJobModel, now: u64, text: Seq<char>)
    ensures
        match c.planned(job, now) {
            Ok(plan) => crate::planner::planned(c.fabric.context(now), job) == Ok::<PlanModel, PlanErrorModel>(plan),
            Err(error) => match crate::planner::planned(c.fabric.context(now), job) {
                Ok(_) => false,
                Err(reason) => {
                    &&& error.status == 400 <==> reason is InvalidLogicalJob
                    &&& error.status == 422 <==> reason is NoFeasibleImplementation
                    &&& error.message == reason.description()
                },
            },
        },
        match crate::ids::parsed_uuid(text) {
            Ok(key) => c.shown_task(text) == c.task_view(TaskId(key)) && c.shown_job(text) == c.job_view(JobId(key)),
            Err(_) => (c.shown_task(text) matches Err(error) && error.status == 400) && (c.shown_job(text) matches Err(
                error,
            ) && error.status == 400),
        },
{
}

}

//! The state of a coordinator, and how each request changes it.

use vstd::prelude::*;

use crate::fabric_model::{FabricModel, Outcome};
use crate::ids::{ExecutionId, JobId, ObjectId, ResourceId, TaskId};
use crate::jobs::LogicalJobModel;
use crate::objects::ObjectModel;
use crate::planner::PlanModel;
use crate::protocol::{
    AssignmentModel, JobViewModel, LinkMeasurement, RegisterReplicaRequest, ReplicaModel,
    ReportLinkMeasurementRequest, ResolvedModel, ResourceViewModel, TaskViewModel,
    WorkPollRequest,
};
use crate::resources::ResourceModel;
use crate::status::FabricErrorModel;
use crate::tasks::MembershipLease;
use crate::topology::LinkProfile;
use crate::validation::PlanErrorModel;
use crate::binary64::Binary64;

verus! {

/// Why a request is refused: the status of the answer, and a text.
pub struct ApiErrorModel {
    pub status: u16,
    pub message: Seq<char>,
}

/// What came of a request.
pub struct Reply<T> {
    pub state: CoordinatorModel,
    pub answer: Result<T, ApiErrorModel>,
}

#[verifier::ext_equal]
pub struct CoordinatorModel {
    pub fabric: FabricModel,
    pub endpoints: Map<u128, Seq<char>>,
    /// The pairs of resources whose links were set by hand.
    pub manual: Seq<(ResourceId, ResourceId)>,
}

pub open spec fn bad_request(message: Seq<char>) -> ApiErrorModel {
    ApiErrorModel { status: 400, message }
}

pub open spec fn not_found(message: Seq<char>) -> ApiErrorModel {
    ApiErrorModel { status: 404, message }
}

pub open spec fn conflict(message: Seq<char>) -> ApiErrorModel {
    ApiErrorModel { status: 409, message }
}

/// The status with which a refusal of the fabric is answered.
pub open spec fn status_of(error: FabricErrorModel) -> u16 {
    match error {
        FabricErrorModel::UnknownTask(_) => 404,
        FabricErrorModel::UnknownObject(_) => 404,
        FabricErrorModel::UnknownJob(_) => 404,
        FabricErrorModel::ResourceNotActive(_) => 404,
        FabricErrorModel::DuplicateTask(_) => 409,
        FabricErrorModel::DuplicateJob(_) => 409,
        FabricErrorModel::ObjectConflict(_) => 409,
        FabricErrorModel::TaskNotPending(_) => 409,
        FabricErrorModel::StaleExecution => 409,
        FabricErrorModel::ExecutionExpired => 409,
        FabricErrorModel::StaleResourceEpoch(_) => 409,
        FabricErrorModel::InvalidTask(_) => 400,
        FabricErrorModel::InvalidCooperativeJob(_) => 400,
        FabricErrorModel::InvalidLogicalJob(_) => 400,
        FabricErrorModel::Scheduling(_) => 422,
    }
}

pub open spec fn refused(error: FabricErrorModel) -> ApiErrorModel {
    ApiErrorModel { status: status_of(error), message: error.description() }
}

/// The answer to a plan that cannot be made.
pub open spec fn unplanned(error: PlanErrorModel) -> ApiErrorModel {
    match error {
        PlanErrorModel::InvalidLogicalJob(_) => bad_request(error.description()),
        PlanErrorModel::NoFeasibleImplementation(_) => ApiErrorModel {
            status: 422,
            message: error.description(),
        },
    }
}

/// An address without the white space around it and the slashes at its end; it has to be one of HTTP.
pub open spec fn normalized_endpoint(endpoint: Seq<char>) -> Result<Seq<char>, ApiErrorModel> {
    let address = crate::text::without_trailing_slashes(crate::text::trimmed(endpoint));
    if crate::text::begins_with(address, "http://"@) || crate::text::begins_with(
        address,
        "https://"@,
    ) {
        Ok(address)
    } else {
        Err(bad_request("data_endpoint must be an http:// or https:// URL"@))
    }
}

/// The places, among the first `k` locations, from which a blob can be fetched.
pub open spec fn replicas_of(
    locations: Seq<ResourceId>,
    endpoints: Map<u128, Seq<char>>,
    suffix: Seq<char>,
    k: nat,
) -> Seq<ReplicaModel>
    decreases k,
{
    if k == 0 {
        Seq::empty()
    } else {
        let before = replicas_of(locations, endpoints, suffix, (k - 1) as nat);
        let location = locations[k - 1];
        if endpoints.contains_key(location.0) {
            before.push(
                ReplicaModel {
                    resource_id: location,
                    url: endpoints[location.0] + "/v1/blobs/"@ + suffix,
                },
            )
        } else {
            before
        }
    }
}

/// An input with the places from which it can be fetched.
pub open spec fn resolved_input(
    objects: Map<u128, ObjectModel>,
    endpoints: Map<u128, Seq<char>>,
    object_id: ObjectId,
) -> Result<ResolvedModel, ApiErrorModel> {
    let name = crate::ids::hyphenated(object_id.0);
    if !objects.contains_key(object_id.0) {
        Err(not_found("unknown object "@ + name))
    } else {
        let metadata = objects[object_id.0];
        match metadata.digest {
            None => Err(conflict("object "@ + name + " has no content digest"@)),
            Some(digest) => match crate::text::after_prefix(digest, "sha256:"@) {
                None => Err(conflict("unsupported digest "@ + digest)),
                Some(suffix) => {
                    let replicas = replicas_of(
                        metadata.locations,
                        endpoints,
                        suffix,
                        metadata.locations.len(),
                    );
                    if replicas.len() == 0 {
                        Err(conflict("object "@ + name + " has no reachable registered replica"@))
                    } else {
                        Ok(ResolvedModel { metadata, replicas })
                    }
                },
            },
        }
    }
}

/// The first `k` inputs with the places from which they can be fetched, or the first refusal.
pub open spec fn resolved_inputs(
    objects: Map<u128, ObjectModel>,
    endpoints: Map<u128, Seq<char>>,
    inputs: Seq<ObjectId>,
    k: nat,
) -> Result<Seq<ResolvedModel>, ApiErrorModel>
    decreases k,
{
    if k == 0 {
        Ok(Seq::empty())
    } else {
        match resolved_inputs(objects, endpoints, inputs, (k - 1) as nat) {
            Err(error) => Err(error),
            Ok(before) => match resolved_input(objects, endpoints, inputs[k - 1]) {
                Err(error) => Err(error),
                Ok(input) => Ok(before.push(input)),
            },
        }
    }
}

/// Whether a task would be sent to a resource.
pub open spec fn suits(fabric: FabricModel, task: u128, resource_id: ResourceId, now: u64) -> bool {
    fabric.scheduled(TaskId(task), now) matches Ok(decision) && decision.resource_id == resource_id
}

/// The first task from `i` on that would be sent to a resource.
pub open spec fn offer_from(
    fabric: FabricModel,
    tasks: Seq<u128>,
    i: int,
    resource_id: ResourceId,
    now: u64,
) -> Option<u128>
    decreases tasks.len() - i,
{
    if i < 0 || i >= tasks.len() {
        None
    } else if suits(fabric, tasks[i], resource_id, now) {
        Some(tasks[i])
    } else {
        offer_from(fabric, tasks, i + 1, resource_id, now)
    }
}

/// A link that carries something: its round-trip time is not negative, and it has bandwidth.
pub open spec fn plausible(rtt_ms: Binary64, bandwidth_mbps: Binary64) -> bool {
    !rtt_ms.less(Binary64 { bits: 0 }) && !bandwidth_mbps.at_most(Binary64 { bits: 0 })
}

pub open spec fn implausible_link() -> ApiErrorModel {
    bad_request("link requires non-negative RTT and positive bandwidth"@)
}

/// A pair of resources, whichever way round.
pub open spec fn pairs(pair: (ResourceId, ResourceId), a: ResourceId, b: ResourceId) -> bool {
    (pair.0 == a && pair.1 == b) || (pair.0 == b && pair.1 == a)
}

/// Pairs that a resource is not part of.
pub open spec fn apart_from(resource_id: ResourceId) -> spec_fn((ResourceId, ResourceId)) -> bool {
    |pair: (ResourceId, ResourceId)| pair.0 != resource_id && pair.1 != resource_id
}

impl CoordinatorModel {
    pub open spec fn empty(membership_ttl_ms: u64, execution_ttl_ms: u64) -> CoordinatorModel {
        CoordinatorModel {
            fabric: FabricModel::empty(membership_ttl_ms, execution_ttl_ms),
            endpoints: Map::empty(),
            manual: Seq::empty(),
        }
    }

    pub open spec fn with_fabric(self, fabric: FabricModel) -> CoordinatorModel {
        CoordinatorModel { fabric, ..self }
    }

    /// The answer to a request that the fabric decides.
    pub open spec fn relayed<T>(self, outcome: Outcome<T>) -> Reply<T> {
        Reply {
            state: self.with_fabric(outcome.state),
            answer: match outcome.answer {
                Ok(value) => Ok(value),
                Err(error) => Err(refused(error)),
            },
        }
    }

    pub open spec fn registered(self, descriptor: ResourceModel, endpoint: Seq<char>, now: u64) -> Reply<
        MembershipLease,
    > {
        match normalized_endpoint(endpoint) {
            Err(error) => Reply { state: self, answer: Err(error) },
            Ok(address) => Reply {
                state: CoordinatorModel {
                    fabric: self.fabric.registered(descriptor, now),
                    endpoints: self.endpoints.insert(descriptor.id.0, address),
                    ..self
                },
                answer: Ok(self.fabric.membership(descriptor, now)),
            },
        }
    }

    /// The active resources, with the addresses of those that have one.
    pub open spec fn listed(self, now: u64) -> Seq<ResourceViewModel> {
        let shown = self.fabric.descriptors(self.fabric.active_keys(now));
        Seq::new(
            shown.len(),
            |i: int|
                ResourceViewModel {
                    descriptor: shown[i],
                    data_endpoint: if self.endpoints.contains_key(shown[i].id.0) {
                        Some(self.endpoints[shown[i].id.0])
                    } else {
                        None
                    },
                },
        )
    }

    /// Why a member may not act now.
    pub open spec fn absence(self, resource_id: ResourceId, epoch: u64, now: u64) -> Option<ApiErrorModel> {
        if !self.fabric.active(resource_id.0, now) {
            Some(not_found("resource is not active"@))
        } else if self.fabric.resources[resource_id.0].descriptor.epoch != epoch {
            Some(conflict("resource epoch is stale"@))
        } else {
            None
        }
    }

    /// Gives a member the first task that would be sent to it, if there is one.
    pub open spec fn assigned(
        self,
        resource_id: ResourceId,
        now: u64,
        execution_id: ExecutionId,
    ) -> Reply<Option<AssignmentModel>> {
        match offer_from(self.fabric, self.fabric.pending_keys(), 0, resource_id, now) {
            None => Reply { state: self, answer: Ok(None) },
            Some(key) => {
                let task = self.fabric.tasks[key].spec;
                match resolved_inputs(
                    self.fabric.objects,
                    self.endpoints,
                    task.inputs,
                    task.inputs.len(),
                ) {
                    Err(error) => Reply { state: self, answer: Err(error) },
                    Ok(inputs) => {
                        let outcome = self.fabric.begun(TaskId(key), resource_id, now, execution_id);
                        Reply {
                            state: self.with_fabric(outcome.state),
                            answer: match outcome.answer {
                                Ok(lease) => Ok(Some(AssignmentModel { lease, task, inputs })),
                                Err(error) => Err(refused(error)),
                            },
                        }
                    },
                }
            },
        }
    }

    /// A member asks for work: roles that can be worked on now become tasks first.
    pub open spec fn polled(
        self,
        request: WorkPollRequest,
        now: u64,
        ids: Seq<Seq<Seq<TaskId>>>,
        execution_id: ExecutionId,
    ) -> Reply<Option<AssignmentModel>> {
        match self.absence(request.resource_id, request.epoch, now) {
            Some(error) => Reply { state: self, answer: Err(error) },
            None => {
                let refreshed = self.fabric.refreshed(now, ids);
                match refreshed.answer {
                    Err(error) => Reply {
                        state: self.with_fabric(refreshed.state),
                        answer: Err(refused(error)),
                    },
                    Ok(_) => self.with_fabric(refreshed.state).assigned(
                        request.resource_id,
                        now,
                        execution_id,
                    ),
                }
            },
        }
    }

    /// Objects are published with the digest of their content only.
    pub open spec fn published(self, object: ObjectModel) -> Reply<()> {
        if object.digest is None {
            Reply { state: self, answer: Err(bad_request("published objects require a digest"@)) }
        } else {
            self.relayed(self.fabric.published(object))
        }
    }

    pub open spec fn replicated(self, request: RegisterReplicaRequest, now: u64) -> Reply<()> {
        if !self.fabric.active(request.resource_id.0, now) {
            Reply { state: self, answer: Err(not_found("replica resource is not active"@)) }
        } else {
            self.relayed(self.fabric.located(request.object_id, request.resource_id))
        }
    }

    pub open spec fn shown_task(self, task: Seq<char>) -> Result<TaskViewModel, ApiErrorModel> {
        match crate::ids::parsed_uuid(task) {
            Err(_) => Err(bad_request("task_id is not a valid UUID"@)),
            Ok(key) => self.task_view(TaskId(key)),
        }
    }

    pub open spec fn task_view(self, task_id: TaskId) -> Result<TaskViewModel, ApiErrorModel> {
        if self.fabric.tasks.contains_key(task_id.0) {
            let record = self.fabric.tasks[task_id.0];
            Ok(TaskViewModel { task: record.spec, status: record.status })
        } else {
            Err(not_found("task not found"@))
        }
    }

    pub open spec fn job_view(self, job_id: JobId) -> Result<JobViewModel, ApiErrorModel> {
        if self.fabric.jobs.contains_key(job_id.0) {
            let record = self.fabric.jobs[job_id.0];
            let roles = crate::fabric_model::role_graph_of(record.definition);
            Ok(
                JobViewModel {
                    job: record.definition,
                    status: record.status(),
                    roles: Seq::new(roles.len(), |i: int| record.role_view(roles[i])),
                },
            )
        } else {
            Err(not_found("job not found"@))
        }
    }

    pub open spec fn shown_job(self, job: Seq<char>) -> Result<JobViewModel, ApiErrorModel> {
        match crate::ids::parsed_uuid(job) {
            Err(_) => Err(bad_request("job_id is not a valid UUID"@)),
            Ok(key) => self.job_view(JobId(key)),
        }
    }

    pub open spec fn planned(self, job: LogicalJobModel, now: u64) -> Result<PlanModel, ApiErrorModel> {
        match crate::planner::planned(self.fabric.context(now), job) {
            Ok(plan) => Ok(plan),
            Err(error) => Err(unplanned(error)),
        }
    }

    /// Whether a link was set by hand.
    pub open spec fn by_hand(self, a: ResourceId, b: ResourceId) -> bool {
        exists|i: int| 0 <= i < self.manual.len() && pairs(#[trigger] self.manual[i], a, b)
    }

    /// Sets a link by hand.
    pub open spec fn overridden(self, link: LinkProfile) -> Reply<()> {
        if !plausible(link.rtt_ms, link.bandwidth_mbps) {
            Reply { state: self, answer: Err(implausible_link()) }
        } else {
            Reply {
                state: CoordinatorModel {
                    fabric: self.fabric.with_link(link),
                    manual: if self.by_hand(link.from, link.to) {
                        self.manual
                    } else {
                        self.manual.push((link.from, link.to))
                    },
                    ..self
                },
                answer: Ok(()),
            }
        }
    }

    /// Takes note of what a member found of the way to another, unless the link was set by hand.
    pub open spec fn measured(self, report: ReportLinkMeasurementRequest, now: u64) -> Reply<()> {
        let from = report.reporter_resource_id;
        let to = report.peer_resource_id;
        match self.absence(from, report.reporter_epoch, now) {
            Some(error) => Reply { state: self, answer: Err(error) },
            None => match report.measurement {
                LinkMeasurement::Reachable { rtt_ms, bandwidth_mbps } => if !plausible(
                    rtt_ms,
                    bandwidth_mbps,
                ) {
                    Reply { state: self, answer: Err(implausible_link()) }
                } else if self.by_hand(from, to) {
                    Reply { state: self, answer: Ok(()) }
                } else {
                    Reply {
                        state: self.with_fabric(
                            self.fabric.with_link(LinkProfile { from, to, rtt_ms, bandwidth_mbps }),
                        ),
                        answer: Ok(()),
                    }
                },
                LinkMeasurement::Unreachable => if self.by_hand(from, to) {
                    Reply { state: self, answer: Ok(()) }
                } else {
                    Reply {
                        state: self.with_fabric(self.fabric.without_link(from, to)),
                        answer: Ok(()),
                    }
                },
            },
        }
    }

    /// Forgets the addresses, and the links set by hand, of the first `k` of some resources.
    pub open spec fn forgotten(self, ids: Seq<u128>, k: nat) -> CoordinatorModel
        decreases k,
    {
        if k == 0 {
            self
        } else {
            let before = self.forgotten(ids, (k - 1) as nat);
            CoordinatorModel {
                endpoints: before.endpoints.remove(ids[k - 1]),
                manual: before.manual.filter(apart_from(ResourceId(ids[k - 1]))),
                ..before
            }
        }
    }

    /// Dismisses the members whose membership has expired, and reaps executions whose lease has.
    pub open spec fn maintained(self, now: u64) -> CoordinatorModel {
        let keys = self.fabric.expired(now);
        let left = self.forgotten(keys, keys.len());
        left.with_fabric(self.fabric.without_resources(keys, keys.len()).reaped(now))
    }
}

}

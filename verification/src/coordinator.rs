//! The coordinator: what it answers to agents and clients.

use std::collections::BTreeMap;
use vstd::prelude::*;
use vstd::string::*;

use crate::binary64::Binary64;
use crate::coordinator_model::{ApiErrorModel, CoordinatorModel};
use crate::fabric::Fabric;
use crate::fabric_model::FabricModel;
use crate::ids::{ExecutionId, JobId, ObjectId, ResourceId, TaskId};
use crate::jobs::JobModel;
use crate::objects::ObjectModel;
use crate::planner::{CooperativePlan, PlanModel};
use crate::protocol::{
    AssignmentModel, CompleteExecutionRequest, CooperativeJobView, HeartbeatRequest,
    LinkMeasurement, LinkUpdateRequest, ObjectReplica, PlanLogicalJobRequest,
    PublishObjectRequest, RegisterReplicaRequest, RegisterResourceRequest,
    RegisterResourceResponse, RenewExecutionRequest, ReplicaModel, ReportLinkMeasurementRequest,
    ResolvedModel, ResolvedObject, ResourceListResponse, ResourceView,
    SubmitCooperativeJobRequest, SubmitCooperativeJobResponse, SubmitLogicalJobResponse,
    SubmitTaskRequest, SubmitTaskResponse, TaskView, WorkAssignment, WorkPollRequest,
    WorkPollResponse,
};
use crate::status::FabricError;
use crate::tasks::{ExecutionLease, MembershipLease};
use crate::text::{base, concat2, concat3, has_prefix, strip_prefix, trim};
use crate::topology::LinkProfile;
use crate::validation::PlanError;

verus! {

broadcast use {vstd::std_specs::btree::group_btree_axioms, crate::collections::group_models};

/// Why a request is refused: the status of the answer, and a text.
#[derive(Clone, Debug, PartialEq, Eq)]
pub struct ApiError {
    pub status: u16,
    pub message: String,
}

impl View for ApiError {
    type V = ApiErrorModel;

    open spec fn view(&self) -> ApiErrorModel {
        ApiErrorModel { status: self.status, message: self.message@ }
    }
}

impl ApiError {
    pub fn bad_request(message: &str) -> (r: ApiError)
        ensures
            r@ == crate::coordinator_model::bad_request(message@),
    {
        ApiError { status: 400, message: message.to_owned() }
    }

    pub fn not_found(message: &str) -> (r: ApiError)
        ensures
            r@ == crate::coordinator_model::not_found(message@),
    {
        ApiError { status: 404, message: message.to_owned() }
    }

    pub fn conflict(message: &str) -> (r: ApiError)
        ensures
            r@ == crate::coordinator_model::conflict(message@),
    {
        ApiError { status: 409, message: message.to_owned() }
    }

    /// The answer to what the fabric refuses.
    pub fn from_fabric(error: FabricError) -> (r: ApiError)
        ensures
            r@ == crate::coordinator_model::refused(error@),
    {
        let status: u16 = match &error {
            FabricError::UnknownTask(_) => 404,
            FabricError::UnknownObject(_) => 404,
            FabricError::UnknownJob(_) => 404,
            FabricError::ResourceNotActive(_) => 404,
            FabricError::DuplicateTask(_) => 409,
            FabricError::DuplicateJob(_) => 409,
            FabricError::ObjectConflict(_) => 409,
            FabricError::TaskNotPending(_) => 409,
            FabricError::StaleExecution => 409,
            FabricError::ExecutionExpired => 409,
            FabricError::StaleResourceEpoch(_) => 409,
            FabricError::InvalidTask(_) => 400,
            FabricError::InvalidCooperativeJob(_) => 400,
            FabricError::InvalidLogicalJob(_) => 400,
            FabricError::Scheduling(_) => 422,
        };
        ApiError { status, message: error.message() }
    }

    /// The answer to a plan that cannot be made.
    pub fn from_plan(error: PlanError) -> (r: ApiError)
        ensures
            r@ == crate::coordinator_model::unplanned(error@),
    {
        let status: u16 = match &error {
            PlanError::InvalidLogicalJob(_) => 400,
            PlanError::NoFeasibleImplementation(_) => 422,
        };
        ApiError { status, message: error.message() }
    }
}

/// An answer with its error as a plain value.
pub open spec fn plain<T>(r: Result<T, ApiError>) -> Result<T, ApiErrorModel> {
    match r {
        Ok(value) => Ok(value),
        Err(error) => Err(error@),
    }
}

/// An answer of plain values.
pub open spec fn shown<T: View>(r: Result<T, ApiError>) -> Result<T::V, ApiErrorModel> {
    match r {
        Ok(value) => Ok(value@),
        Err(error) => Err(error@),
    }
}

pub fn normalize_endpoint(endpoint: &str) -> (r: Result<String, ApiError>)
    ensures
        shown(r) == crate::coordinator_model::normalized_endpoint(endpoint@),
{
    let address = base(trim(endpoint));
    if !(has_prefix(address, "http://") || has_prefix(address, "https://")) {
        return Err(ApiError::bad_request("data_endpoint must be an http:// or https:// URL"));
    }
    Ok(address.to_owned())
}

/// What a coordinator knows: the fabric, and where its members serve data.
#[derive(Clone, Debug)]
pub struct Coordinator {
    fabric: Fabric,
    data_endpoints: BTreeMap<u128, String>,
    manual_links: Vec<(ResourceId, ResourceId)>,
}

impl View for Coordinator {
    type V = CoordinatorModel;

    closed spec fn view(&self) -> CoordinatorModel {
        CoordinatorModel {
            fabric: self.fabric@,
            endpoints: crate::collections::modeled(self.data_endpoints@),
            manual: self.manual_links@,
        }
    }
}

proof fn lemma_unresolved_stays(
    objects: Map<u128, ObjectModel>,
    endpoints: Map<u128, Seq<char>>,
    inputs: Seq<ObjectId>,
    i: nat,
    k: nat,
)
    requires
        crate::coordinator_model::resolved_inputs(objects, endpoints, inputs, i) is Err,
        i <= k,
    ensures
        crate::coordinator_model::resolved_inputs(objects, endpoints, inputs, k)
            == crate::coordinator_model::resolved_inputs(objects, endpoints, inputs, i),
    decreases k - i,
{
    if i < k {
        lemma_unresolved_stays(objects, endpoints, inputs, i, (k - 1) as nat);
    }
}

impl Coordinator {
    pub fn new(membership_ttl_ms: u64, execution_ttl_ms: u64) -> (r: Coordinator)
        ensures
            r@ == CoordinatorModel::empty(membership_ttl_ms, execution_ttl_ms),
            r@.fabric.wf(),
    {
        let r = Coordinator {
            fabric: Fabric::new(membership_ttl_ms, execution_ttl_ms),
            data_endpoints: BTreeMap::new(),
            manual_links: Vec::new(),
        };
        assert(r@ =~= CoordinatorModel::empty(membership_ttl_ms, execution_ttl_ms));
        r
    }

    pub fn fabric(&self) -> (r: &Fabric)
        ensures
            r@ == self@.fabric,
    {
        &self.fabric
    }

    /// Admits a resource at the address where it serves data.
    pub fn register_resource(&mut self, request: RegisterResourceRequest, now: u64) -> (r: Result<
        RegisterResourceResponse,
        ApiError,
    >)
        requires
            old(self)@.fabric.wf(),
            crate::coordinator_model::normalized_endpoint(request.data_endpoint@) is Ok ==> old(
                self,
            )@.fabric.next_epoch(request.descriptor@) <= u64::MAX,
        ensures
            ({
                let reply = old(self)@.registered(
                    request.descriptor@,
                    request.data_endpoint@,
                    now,
                );
                &&& final(self)@ == reply.state
                &&& match r {
                    Ok(response) => reply.answer == Ok::<MembershipLease, ApiErrorModel>(response.lease),
                    Err(error) => reply.answer == Err::<MembershipLease, ApiErrorModel>(error@),
                }
            }),
            final(self)@.fabric.wf(),
    {
        let endpoint = match normalize_endpoint(request.data_endpoint.as_str()) {
            Ok(endpoint) => endpoint,
            Err(error) => {
                return Err(error);
            },
        };
        let lease = self.fabric.register_resource_at(request.descriptor, now);
        self.data_endpoints.insert(lease.resource_id.0, endpoint);
        assert(self@ =~= old(self)@.registered(
            request.descriptor@,
            request.data_endpoint@,
            now,
        ).state);
        Ok(RegisterResourceResponse { lease })
    }

    pub fn heartbeat(&mut self, request: HeartbeatRequest, now: u64) -> (r: Result<
        MembershipLease,
        ApiError,
    >)
        requires
            old(self)@.fabric.wf(),
        ensures
            ({
                let reply = old(self)@.relayed(
                    old(self)@.fabric.heartbeat(request.resource_id, request.epoch, now),
                );
                final(self)@ == reply.state && plain(r) == reply.answer
            }),
            final(self)@.fabric.wf(),
    {
        match self.fabric.heartbeat_at(request.resource_id, request.epoch, now) {
            Ok(lease) => Ok(lease),
            Err(error) => Err(ApiError::from_fabric(error)),
        }
    }

    /// The active resources, with the addresses of those that have one.
    pub fn list_resources(&self, now: u64) -> (r: ResourceListResponse)
        ensures
            crate::text::views(r.resources@) == self@.listed(now),
    {
        let active = self.fabric.active_resources_at(now);
        let ghost all = crate::text::views(active@);
        let ghost expected = self@.listed(now);
        let mut resources: Vec<ResourceView> = Vec::new();
        let mut i: usize = 0;
        while i < active.len()
            invariant
                i <= active@.len(),
                all == crate::text::views(active@),
                all == self@.fabric.descriptors(self@.fabric.active_keys(now)),
                expected == self@.listed(now),
                resources@.len() == i,
                forall|j: int| 0 <= j < i ==> (#[trigger] resources@[j])@ == expected[j],
            decreases active@.len() - i,
        {
            assert(all[i as int] == active@[i as int]@);
            let data_endpoint = match self.data_endpoints.get(&active[i].id.0) {
                Some(endpoint) => Some(endpoint.clone()),
                None => None,
            };
            resources.push(ResourceView { descriptor: active[i].clone(), data_endpoint });
            i = i + 1;
        }
        assert(crate::text::views(resources@) =~= expected);
        ResourceListResponse { resources }
    }

    /// Why a member may not act now.
    fn check_member(&self, resource_id: ResourceId, epoch: u64, now: u64) -> (r: Option<ApiError>)
        ensures
            crate::text::view_of(r) == self@.absence(resource_id, epoch, now),
    {
        match self.fabric.resource_epoch_at(resource_id, now) {
            None => Some(ApiError::not_found("resource is not active")),
            Some(current) => if current != epoch {
                Some(ApiError::conflict("resource epoch is stale"))
            } else {
                None
            },
        }
    }

    fn replicas(&self, locations: &Vec<ResourceId>, suffix: &str) -> (r: Vec<ObjectReplica>)
        ensures
            crate::text::views(r@) == crate::coordinator_model::replicas_of(
                locations@,
                self@.endpoints,
                suffix@,
                locations@.len(),
            ),
    {
        let mut replicas: Vec<ObjectReplica> = Vec::new();
        let mut k: usize = 0;
        assert(crate::text::views(replicas@) =~= Seq::<ReplicaModel>::empty());
        while k < locations.len()
            invariant
                k <= locations@.len(),
                crate::text::views(replicas@) == crate::coordinator_model::replicas_of(
                    locations@,
                    self@.endpoints,
                    suffix@,
                    k as nat,
                ),
            decreases locations@.len() - k,
        {
            let resource_id = locations[k];
            if let Some(endpoint) = self.data_endpoints.get(&resource_id.0) {
                let ghost before = crate::text::views(replicas@);
                let replica = ObjectReplica {
                    resource_id,
                    url: concat3(endpoint.as_str(), "/v1/blobs/", suffix),
                };
                let ghost model = replica@;
                replicas.push(replica);
                assert(crate::text::views(replicas@) =~= before.push(model));
            }
            k = k + 1;
        }
        replicas
    }

    fn resolve_input(&self, object_id: ObjectId) -> (r: Result<ResolvedObject, ApiError>)
        ensures
            shown(r) == crate::coordinator_model::resolved_input(
                self@.fabric.objects,
                self@.endpoints,
                object_id,
            ),
    {
        let name = object_id.text();
        let metadata = match self.fabric.object_metadata(object_id) {
            Some(metadata) => metadata,
            None => {
                return Err(
                    ApiError::not_found(concat2("unknown object ", name.as_str()).as_str()),
                );
            },
        };
        let digest = match &metadata.digest {
            Some(digest) => digest,
            None => {
                return Err(
                    ApiError::conflict(
                        concat3("object ", name.as_str(), " has no content digest").as_str(),
                    ),
                );
            },
        };
        let suffix = match strip_prefix(digest.as_str(), "sha256:") {
            Some(suffix) => suffix,
            None => {
                return Err(
                    ApiError::conflict(concat2("unsupported digest ", digest.as_str()).as_str()),
                );
            },
        };
        let replicas = self.replicas(&metadata.locations, suffix);
        assert(crate::text::views(replicas@).len() == replicas@.len());
        if replicas.len() == 0 {
            return Err(
                ApiError::conflict(
                    concat3("object ", name.as_str(), " has no reachable registered replica").as_str(),
                ),
            );
        }
        Ok(ResolvedObject { metadata: metadata.clone(), replicas })
    }

    /// Inputs with the places from which they can be fetched.
    pub fn resolve_inputs(&self, input_ids: &Vec<ObjectId>) -> (r: Result<Vec<ResolvedObject>, ApiError>)
        ensures
            match r {
                Ok(inputs) => crate::coordinator_model::resolved_inputs(
                    self@.fabric.objects,
                    self@.endpoints,
                    input_ids@,
                    input_ids@.len(),
                ) == Ok::<Seq<ResolvedModel>, ApiErrorModel>(crate::text::views(inputs@)),
                Err(error) => crate::coordinator_model::resolved_inputs(
                    self@.fabric.objects,
                    self@.endpoints,
                    input_ids@,
                    input_ids@.len(),
                ) == Err::<Seq<ResolvedModel>, ApiErrorModel>(error@),
            },
    {
        let ghost objects = self@.fabric.objects;
        let ghost endpoints = self@.endpoints;
        let mut inputs: Vec<ResolvedObject> = Vec::new();
        let mut k: usize = 0;
        assert(crate::text::views(inputs@) =~= Seq::<ResolvedModel>::empty());
        while k < input_ids.len()
            invariant
                k <= input_ids@.len(),
                objects == self@.fabric.objects,
                endpoints == self@.endpoints,
                crate::coordinator_model::resolved_inputs(objects, endpoints, input_ids@, k as nat)
                    == Ok::<Seq<ResolvedModel>, ApiErrorModel>(crate::text::views(inputs@)),
            decreases input_ids@.len() - k,
        {
            match self.resolve_input(input_ids[k]) {
                Ok(input) => {
                    let ghost before = crate::text::views(inputs@);
                    let ghost model = input@;
                    inputs.push(input);
                    assert(crate::text::views(inputs@) =~= before.push(model));
                },
                Err(error) => {
                    proof {
                        assert(crate::coordinator_model::resolved_inputs(
                            objects,
                            endpoints,
                            input_ids@,
                            (k + 1) as nat,
                        ) == Err::<Seq<ResolvedModel>, ApiErrorModel>(error@));
                        lemma_unresolved_stays(
                            objects,
                            endpoints,
                            input_ids@,
                            (k + 1) as nat,
                            input_ids@.len(),
                        );
                    }
                    return Err(error);
                },
            }
            k = k + 1;
        }
        Ok(inputs)
    }
}

impl Coordinator {
    /// The first pending task that would be sent to a resource.
    fn find_offer(&self, resource_id: ResourceId, now: u64) -> (r: Option<TaskId>)
        ensures
            match r {
                Some(task_id) => crate::coordinator_model::offer_from(
                    self@.fabric,
                    self@.fabric.pending_keys(),
                    0,
                    resource_id,
                    now,
                ) == Some(task_id.0),
                None => crate::coordinator_model::offer_from(
                    self@.fabric,
                    self@.fabric.pending_keys(),
                    0,
                    resource_id,
                    now,
                ) is None,
            },
    {
        let ghost keys = self@.fabric.pending_keys();
        let pending = self.fabric.pending_task_ids();
        let mut i: usize = 0;
        while i < pending.len()
            invariant
                i <= pending@.len(),
                keys == self@.fabric.pending_keys(),
                pending@ == keys.map_values(|k: u128| TaskId(k)),
                crate::coordinator_model::offer_from(self@.fabric, keys, 0, resource_id, now)
                    == crate::coordinator_model::offer_from(
                    self@.fabric,
                    keys,
                    i as int,
                    resource_id,
                    now,
                ),
            decreases pending@.len() - i,
        {
            let task_id = pending[i];
            assert(task_id == TaskId(keys[i as int]));
            if let Ok(decision) = self.fabric.schedule_task_at(task_id, now) {
                if decision.resource_id == resource_id {
                    return Some(task_id);
                }
            }
            i = i + 1;
        }
        None
    }

    /// Gives a member the first task that would be sent to it, as an execution of a given identity.
    pub fn assign(&mut self, resource_id: ResourceId, now: u64, execution_id: ExecutionId) -> (r: Result<
        WorkPollResponse,
        ApiError,
    >)
        requires
            old(self)@.fabric.wf(),
        ensures
            ({
                let reply = old(self)@.assigned(resource_id, now, execution_id);
                final(self)@ == reply.state && assignment_of(r) == reply.answer
            }),
            final(self)@.fabric.wf(),
    {
        let task_id = match self.find_offer(resource_id, now) {
            Some(task_id) => task_id,
            None => {
                return Ok(WorkPollResponse { assignment: None });
            },
        };
        let task = match self.fabric.task_spec(task_id) {
            Some(task) => task.clone(),
            None => {
                proof {
                    lemma_offers_are_pending(
                        self@.fabric,
                        self@.fabric.pending_keys(),
                        0,
                        resource_id,
                        now,
                    );
                }
                return Err(ApiError::not_found("task disappeared during scheduling"));
            },
        };
        let inputs = match self.resolve_inputs(&task.inputs) {
            Ok(inputs) => inputs,
            Err(error) => {
                return Err(error);
            },
        };
        match self.fabric.begin_execution_at(task_id, resource_id, now, execution_id) {
            Ok(lease) => {
                let assignment = WorkAssignment { lease, task, inputs };
                Ok(WorkPollResponse { assignment: Some(assignment) })
            },
            Err(error) => Err(ApiError::from_fabric(error)),
        }
    }

    /// A member asks for work: roles that can be worked on now become tasks first.
    pub fn poll_work(&mut self, request: WorkPollRequest, now: u64) -> (r: Result<
        WorkPollResponse,
        ApiError,
    >)
        requires
            old(self)@.fabric.wf(),
        ensures
            exists|ids: Seq<Seq<Seq<TaskId>>>, execution_id: ExecutionId|
                {
                    let reply = #[trigger] old(self)@.polled(request, now, ids, execution_id);
                    final(self)@ == reply.state && assignment_of(r) == reply.answer
                },
            final(self)@.fabric.wf(),
    {
        let ghost model = self@;
        let execution_id = ExecutionId::new();
        if let Some(error) = self.check_member(request.resource_id, request.epoch, now) {
            assert(model.polled(request, now, Seq::empty(), execution_id).state == model);
            return Err(error);
        }
        let refreshed = self.fabric.refresh_ready_roles_at(now);
        let ghost ids = choose|ids: Seq<Seq<Seq<TaskId>>>|
            {
                let outcome = #[trigger] model.fabric.refreshed(now, ids);
                self@.fabric == outcome.state && crate::fabric::plain(refreshed) == outcome.answer
            };
        assert(self@ =~= model.with_fabric(model.fabric.refreshed(now, ids).state));
        if let Err(error) = refreshed {
            assert(model.polled(request, now, ids, execution_id).state == self@);
            return Err(ApiError::from_fabric(error));
        }
        let ghost ready = self@;
        let r = self.assign(request.resource_id, now, execution_id);
        assert(model.polled(request, now, ids, execution_id) == ready.assigned(
            request.resource_id,
            now,
            execution_id,
        ));
        r
    }

    pub fn renew_execution(&mut self, request: RenewExecutionRequest, now: u64) -> (r: Result<
        ExecutionLease,
        ApiError,
    >)
        requires
            old(self)@.fabric.wf(),
        ensures
            ({
                let reply = old(self)@.relayed(old(self)@.fabric.renewed(request.lease, now));
                final(self)@ == reply.state && plain(r) == reply.answer
            }),
            final(self)@.fabric.wf(),
    {
        match self.fabric.renew_execution_at(&request.lease, now) {
            Ok(lease) => Ok(lease),
            Err(error) => Err(ApiError::from_fabric(error)),
        }
    }

    pub fn complete_execution(&mut self, request: CompleteExecutionRequest, now: u64) -> (r: Result<
        (),
        ApiError,
    >)
        requires
            old(self)@.fabric.wf(),
        ensures
            exists|ids: Seq<Seq<TaskId>>|
                {
                    let outcome = #[trigger] old(self)@.fabric.completed(
                        request.lease,
                        crate::text::views(request.outputs@),
                        now,
                        ids,
                    );
                    let reply = old(self)@.relayed(outcome);
                    final(self)@ == reply.state && plain(r) == reply.answer
                },
            final(self)@.fabric.wf(),
    {
        match self.fabric.complete_execution_at(&request.lease, request.outputs, now) {
            Ok(_) => Ok(()),
            Err(error) => Err(ApiError::from_fabric(error)),
        }
    }

    /// Announces an object under the digest of its content.
    pub fn publish_object(&mut self, request: PublishObjectRequest) -> (r: Result<(), ApiError>)
        requires
            old(self)@.fabric.wf(),
        ensures
            ({
                let reply = old(self)@.published(request.object@);
                final(self)@ == reply.state && plain(r) == reply.answer
            }),
            final(self)@.fabric.wf(),
    {
        if request.object.digest.is_none() {
            return Err(ApiError::bad_request("published objects require a digest"));
        }
        match self.fabric.publish_object(request.object) {
            Ok(_) => Ok(()),
            Err(error) => Err(ApiError::from_fabric(error)),
        }
    }

    /// Records that a member holds an object too.
    pub fn register_replica(&mut self, request: RegisterReplicaRequest, now: u64) -> (r: Result<
        (),
        ApiError,
    >)
        requires
            old(self)@.fabric.wf(),
        ensures
            ({
                let reply = old(self)@.replicated(request, now);
                final(self)@ == reply.state && plain(r) == reply.answer
            }),
            final(self)@.fabric.wf(),
    {
        if self.fabric.resource_epoch_at(request.resource_id, now).is_none() {
            return Err(ApiError::not_found("replica resource is not active"));
        }
        match self.fabric.add_object_location(request.object_id, request.resource_id) {
            Ok(_) => Ok(()),
            Err(error) => Err(ApiError::from_fabric(error)),
        }
    }

    pub fn submit_task(&mut self, request: SubmitTaskRequest) -> (r: Result<SubmitTaskResponse, ApiError>)
        requires
            old(self)@.fabric.wf(),
        ensures
            ({
                let reply = old(self)@.relayed(old(self)@.fabric.submitted(request.task@));
                &&& final(self)@ == reply.state
                &&& match r {
                    Ok(response) => reply.answer == Ok::<TaskId, ApiErrorModel>(response.task_id),
                    Err(error) => reply.answer == Err::<TaskId, ApiErrorModel>(error@),
                }
            }),
            final(self)@.fabric.wf(),
    {
        match self.fabric.submit(request.task) {
            Ok(task_id) => Ok(SubmitTaskResponse { task_id }),
            Err(error) => Err(ApiError::from_fabric(error)),
        }
    }

    /// A task, by the text of its identifier.
    pub fn get_task(&self, task: &str) -> (r: Result<TaskView, ApiError>)
        ensures
            shown(r) == self@.shown_task(task@),
    {
        match TaskId::parse(task) {
            Ok(task_id) => self.show_task(task_id),
            Err(_) => Err(ApiError::bad_request("task_id is not a valid UUID")),
        }
    }

    pub fn show_task(&self, task_id: TaskId) -> (r: Result<TaskView, ApiError>)
        ensures
            shown(r) == self@.task_view(task_id),
    {
        match (self.fabric.task_spec(task_id), self.fabric.task_status(task_id)) {
            (Some(task), Some(status)) => Ok(
                TaskView { task: task.clone(), status: status.clone() },
            ),
            _ => Err(ApiError::not_found("task not found")),
        }
    }
}

/// The assignment in an answer, as plain values.
pub open spec fn assignment_of(r: Result<WorkPollResponse, ApiError>) -> Result<
    Option<AssignmentModel>,
    ApiErrorModel,
> {
    match r {
        Ok(response) => Ok(crate::text::view_of(response.assignment)),
        Err(error) => Err(error@),
    }
}

/// A task that is offered is known.
proof fn lemma_offers_are_pending(
    fabric: FabricModel,
    tasks: Seq<u128>,
    i: int,
    resource_id: ResourceId,
    now: u64,
)
    ensures
        crate::coordinator_model::offer_from(fabric, tasks, i, resource_id, now) matches Some(task)
            ==> fabric.tasks.contains_key(task) && fabric.tasks[task].status is Pending,
    decreases tasks.len() - i,
{
    if 0 <= i < tasks.len() && !crate::coordinator_model::suits(fabric, tasks[i], resource_id, now) {
        lemma_offers_are_pending(fabric, tasks, i + 1, resource_id, now);
    }
}

impl Coordinator {
    pub fn submit_cooperative_job(&mut self, request: SubmitCooperativeJobRequest, now: u64) -> (r: Result<
        SubmitCooperativeJobResponse,
        ApiError,
    >)
        requires
            old(self)@.fabric.wf(),
        ensures
            exists|ids: Seq<Seq<TaskId>>|
                {
                    let outcome = #[trigger] old(self)@.fabric.enlisted(
                        JobModel::Cooperative(request.job@),
                        now,
                        ids,
                    );
                    let reply = old(self)@.relayed(outcome);
                    &&& final(self)@ == reply.state
                    &&& match r {
                        Ok(response) => reply.answer == Ok::<JobId, ApiErrorModel>(response.job_id),
                        Err(error) => reply.answer == Err::<JobId, ApiErrorModel>(error@),
                    }
                },
            final(self)@.fabric.wf(),
    {
        match self.fabric.submit_cooperative_at(request.job, now) {
            Ok(job_id) => Ok(SubmitCooperativeJobResponse { job_id }),
            Err(error) => Err(ApiError::from_fabric(error)),
        }
    }

    /// Predicts how a logical job would run now.
    pub fn plan_logical_job(&self, request: &PlanLogicalJobRequest, now: u64) -> (r: Result<
        CooperativePlan,
        ApiError,
    >)
        ensures
            shown(r) == self@.planned(request.job@, now),
    {
        match self.fabric.plan_logical_job_at(&request.job, now) {
            Ok(plan) => Ok(plan),
            Err(error) => Err(ApiError::from_plan(error)),
        }
    }

    /// Accepts a logical job, with the plan for it if there is one now.
    pub fn submit_logical_job(&mut self, request: PlanLogicalJobRequest, now: u64) -> (r: Result<
        SubmitLogicalJobResponse,
        ApiError,
    >)
        requires
            old(self)@.fabric.wf(),
        ensures
            exists|ids: Seq<Seq<TaskId>>|
                {
                    let outcome = #[trigger] old(self)@.fabric.enlisted(
                        JobModel::Logical(request.job@),
                        now,
                        ids,
                    );
                    let reply = old(self)@.relayed(outcome);
                    &&& final(self)@ == reply.state
                    &&& match r {
                        Ok(response) => reply.answer == Ok::<JobId, ApiErrorModel>(response.job_id)
                            && match response.initial_plan {
                            Some(plan) => old(self)@.planned(request.job@, now)
                                == Ok::<PlanModel, ApiErrorModel>(plan@),
                            None => old(self)@.planned(request.job@, now) is Err,
                        },
                        Err(error) => reply.answer == Err::<JobId, ApiErrorModel>(error@),
                    }
                },
            final(self)@.fabric.wf(),
    {
        let initial_plan = match self.plan_logical_job(&request, now) {
            Ok(plan) => Some(plan),
            Err(_) => None,
        };
        match self.fabric.submit_logical_at(request.job, now) {
            Ok(job_id) => Ok(SubmitLogicalJobResponse { job_id, initial_plan }),
            Err(error) => Err(ApiError::from_fabric(error)),
        }
    }

    /// A job with its roles, by the text of its identifier.
    pub fn get_job(&self, job: &str) -> (r: Result<CooperativeJobView, ApiError>)
        requires
            self@.fabric.wf(),
        ensures
            shown(r) == self@.shown_job(job@),
    {
        match JobId::parse(job) {
            Ok(job_id) => self.show_job(job_id),
            Err(_) => Err(ApiError::bad_request("job_id is not a valid UUID")),
        }
    }

    pub fn show_job(&self, job_id: JobId) -> (r: Result<CooperativeJobView, ApiError>)
        requires
            self@.fabric.wf(),
        ensures
            shown(r) == self@.job_view(job_id),
    {
        match (
            self.fabric.job_definition(job_id),
            self.fabric.cooperative_job_status(job_id),
            self.fabric.cooperative_role_views(job_id),
        ) {
            (Some(definition), Some(status), Some(roles)) => {
                let view = CooperativeJobView { job: definition.clone(), status, roles };
                assert(shown(Ok::<CooperativeJobView, ApiError>(view)) == self@.job_view(job_id));
                Ok(view)
            },
            _ => Err(ApiError::not_found("job not found")),
        }
    }

    fn set_by_hand(&self, a: ResourceId, b: ResourceId) -> (r: bool)
        ensures
            r == self@.by_hand(a, b),
    {
        let mut i: usize = 0;
        while i < self.manual_links.len()
            invariant
                i <= self.manual_links@.len(),
                forall|j: int|
                    0 <= j < i ==> !crate::coordinator_model::pairs(
                        #[trigger] self.manual_links@[j],
                        a,
                        b,
                    ),
            decreases self.manual_links@.len() - i,
        {
            let pair = self.manual_links[i];
            if (pair.0 == a && pair.1 == b) || (pair.0 == b && pair.1 == a) {
                assert(crate::coordinator_model::pairs(self@.manual[i as int], a, b));
                return true;
            }
            i = i + 1;
        }
        false
    }

    /// Sets the link between two resources by hand.
    pub fn update_link(&mut self, request: LinkUpdateRequest) -> (r: Result<(), ApiError>)
        requires
            old(self)@.fabric.wf(),
        ensures
            ({
                let reply = old(self)@.overridden(request.link);
                final(self)@ == reply.state && plain(r) == reply.answer
            }),
            final(self)@.fabric.wf(),
    {
        let link = request.link;
        if !is_plausible(link.rtt_ms, link.bandwidth_mbps) {
            return Err(
                ApiError::bad_request("link requires non-negative RTT and positive bandwidth"),
            );
        }
        if !self.set_by_hand(link.from, link.to) {
            self.manual_links.push((link.from, link.to));
        }
        self.fabric.upsert_link(link);
        assert(self@ =~= old(self)@.overridden(link).state);
        Ok(())
    }

    /// Takes note of what a member found of the way to another, unless the link was set by hand.
    pub fn report_measurement(&mut self, report: ReportLinkMeasurementRequest, now: u64) -> (r: Result<
        (),
        ApiError,
    >)
        requires
            old(self)@.fabric.wf(),
        ensures
            ({
                let reply = old(self)@.measured(report, now);
                final(self)@ == reply.state && plain(r) == reply.answer
            }),
            final(self)@.fabric.wf(),
    {
        let from = report.reporter_resource_id;
        let to = report.peer_resource_id;
        if let Some(error) = self.check_member(from, report.reporter_epoch, now) {
            return Err(error);
        }
        match report.measurement {
            LinkMeasurement::Reachable { rtt_ms, bandwidth_mbps } => {
                if !is_plausible(rtt_ms, bandwidth_mbps) {
                    return Err(
                        ApiError::bad_request(
                            "link requires non-negative RTT and positive bandwidth",
                        ),
                    );
                }
                if !self.set_by_hand(from, to) {
                    self.fabric.upsert_link(LinkProfile { from, to, rtt_ms, bandwidth_mbps });
                }
            },
            LinkMeasurement::Unreachable => {
                if !self.set_by_hand(from, to) {
                    self.fabric.remove_link(from, to);
                }
            },
        }
        Ok(())
    }

    /// Forgets the address, and the links set by hand, of a resource.
    fn forget(&mut self, resource_id: ResourceId)
        ensures
            final(self)@ == (CoordinatorModel {
                endpoints: old(self)@.endpoints.remove(resource_id.0),
                manual: old(self)@.manual.filter(
                    crate::coordinator_model::apart_from(resource_id),
                ),
                ..old(self)@
            }),
    {
        let ghost keep = crate::coordinator_model::apart_from(resource_id);
        let ghost all = self.manual_links@;
        self.data_endpoints.remove(&resource_id.0);
        let mut kept: Vec<(ResourceId, ResourceId)> = Vec::new();
        let mut i: usize = 0;
        assert(all.take(0).filter(keep) =~= Seq::<(ResourceId, ResourceId)>::empty()) by {
            reveal(Seq::filter);
        }
        while i < self.manual_links.len()
            invariant
                i <= self.manual_links@.len(),
                all == self.manual_links@,
                keep == crate::coordinator_model::apart_from(resource_id),
                kept@ == all.take(i as int).filter(keep),
            decreases self.manual_links@.len() - i,
        {
            let pair = self.manual_links[i];
            proof {
                crate::collections::lemma_filter_step(all, keep, i as int);
            }
            if pair.0 != resource_id && pair.1 != resource_id {
                kept.push(pair);
            }
            i = i + 1;
        }
        assert(all.take(all.len() as int) =~= all);
        self.manual_links = kept;
    }

    /// Dismisses the members whose membership has expired, and reaps executions whose lease has.
    pub fn maintenance_tick(&mut self, now: u64)
        requires
            old(self)@.fabric.wf(),
        ensures
            final(self)@ == old(self)@.maintained(now),
            final(self)@.fabric.wf(),
    {
        let ghost model = self@;
        let ghost keys = model.fabric.expired(now);
        let expired = self.fabric.expire_resources_at(now);
        let ghost left = model.fabric.without_resources(keys, keys.len());
        let mut k: usize = 0;
        assert(self@ =~= model.forgotten(keys, 0).with_fabric(left));
        while k < expired.len()
            invariant
                k <= expired@.len(),
                expired@ == keys.map_values(|key: u128| ResourceId(key)),
                left.wf(),
                self@ == model.forgotten(keys, k as nat).with_fabric(left),
            decreases expired@.len() - k,
        {
            assert(expired@[k as int] == ResourceId(keys[k as int]));
            self.forget(expired[k]);
            assert(self@ =~= model.forgotten(keys, (k + 1) as nat).with_fabric(left));
            k = k + 1;
        }
        self.fabric.reap_expired_executions_at(now);
        assert(self@ =~= model.maintained(now));
    }
}

fn is_plausible(rtt_ms: Binary64, bandwidth_mbps: Binary64) -> (r: bool)
    ensures
        r == crate::coordinator_model::plausible(rtt_ms, bandwidth_mbps),
{
    !rtt_ms.lt(Binary64::from_bits(0)) && !bandwidth_mbps.le(Binary64::from_bits(0))
}

/// A link that was set by hand is not changed by what is measured.
pub proof fn law_links_set_by_hand_are_authoritative(
    c: CoordinatorModel,
    report: ReportLinkMeasurementRequest,
    now: u64,
    a: ResourceId,
    b: ResourceId,
)
    requires
        c.by_hand(a, b),
    ensures
        crate::topology::link_between(c.measured(report, now).state.fabric.links, a, b)
            == crate::topology::link_between(c.fabric.links, a, b),
        c.measured(report, now).state.by_hand(a, b),
{
    let from = report.reporter_resource_id;
    let to = report.peer_resource_id;
    let i = choose|i: int|
        0 <= i < c.manual.len() && crate::coordinator_model::pairs(#[trigger] c.manual[i], a, b);
    if !c.by_hand(from, to) {
        assert(!((a == from && b == to) || (a == to && b == from))) by {
            if (a == from && b == to) || (a == to && b == from) {
                assert(crate::coordinator_model::pairs(c.manual[i], from, to));
            }
        }
        let link = match report.measurement {
            LinkMeasurement::Reachable { rtt_ms, bandwidth_mbps } => LinkProfile {
                from,
                to,
                rtt_ms,
                bandwidth_mbps,
            },
            LinkMeasurement::Unreachable => LinkProfile {
                from,
                to,
                rtt_ms: Binary64 { bits: 0 },
                bandwidth_mbps: Binary64 { bits: 0 },
            },
        };
        crate::fabric_laws::law_links_are_replaced(c.fabric, link, a, b);
    }
    let after = c.measured(report, now).state;
    assert(after.manual == c.manual);
    assert(crate::coordinator_model::pairs(after.manual[i], a, b));
}

/// A link that was set by hand is the one between its ends, and stays so by hand.
pub proof fn law_overrides_take_effect(c: CoordinatorModel, link: LinkProfile)
    requires
        crate::coordinator_model::plausible(link.rtt_ms, link.bandwidth_mbps),
    ensures
        c.overridden(link).answer is Ok,
        crate::topology::link_between(c.overridden(link).state.fabric.links, link.from, link.to)
            == Some(link),
        c.overridden(link).state.by_hand(link.from, link.to),
{
    crate::fabric_laws::law_links_are_replaced(c.fabric, link, link.from, link.to);
    let after = c.overridden(link).state;
    if !c.by_hand(link.from, link.to) {
        assert(crate::coordinator_model::pairs(
            after.manual[c.manual.len() as int],
            link.from,
            link.to,
        ));
    } else {
        let i = choose|i: int|
            0 <= i < c.manual.len() && crate::coordinator_model::pairs(
                #[trigger] c.manual[i],
                link.from,
                link.to,
            );
        assert(crate::coordinator_model::pairs(after.manual[i], link.from, link.to));
    }
}

/// What an agent is given to fetch an input from are members that hold it and have an address, in
/// the order in which the object lists them.
pub proof fn law_replicas_are_reachable_holders(
    locations: Seq<ResourceId>,
    endpoints: Map<u128, Seq<char>>,
    suffix: Seq<char>,
    k: nat,
)
    requires
        k <= locations.len(),
    ensures
        forall|j: int|
            0 <= j < crate::coordinator_model::replicas_of(locations, endpoints, suffix, k).len() ==> {
                let replica = #[trigger] crate::coordinator_model::replicas_of(
                    locations,
                    endpoints,
                    suffix,
                    k,
                )[j];
                &&& locations.contains(replica.resource_id)
                &&& endpoints.contains_key(replica.resource_id.0)
                &&& replica.url == endpoints[replica.resource_id.0] + "/v1/blobs/"@ + suffix
            },
    decreases k,
{
    if k > 0 {
        law_replicas_are_reachable_holders(locations, endpoints, suffix, (k - 1) as nat);
        assert(locations.contains(locations[k - 1]));
        let before = crate::coordinator_model::replicas_of(
            locations,
            endpoints,
            suffix,
            (k - 1) as nat,
        );
        let all = crate::coordinator_model::replicas_of(locations, endpoints, suffix, k);
        assert forall|j: int| 0 <= j < all.len() implies {
            let replica = #[trigger] all[j];
            &&& locations.contains(replica.resource_id)
            &&& endpoints.contains_key(replica.resource_id.0)
            &&& replica.url == endpoints[replica.resource_id.0] + "/v1/blobs/"@ + suffix
        } by {
            if j < before.len() {
                assert(all[j] == before[j]);
            }
        }
    }
}

}

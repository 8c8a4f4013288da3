//! The messages between coordinator, agents and clients.

use vstd::prelude::*;

use crate::binary64::Binary64;
use crate::ids::{JobId, ObjectId, ResourceId, TaskId};
use crate::jobs::{CooperativeJobSpec, JobDefinition, JobModel, LogicalJobSpec};
use crate::objects::{ObjectMetadata, ObjectModel};
use crate::planner::CooperativePlan;
use crate::resources::{ResourceDescriptor, ResourceModel};
use crate::status::{
    CooperativeJobStatus, CooperativeRoleView, JobStatusModel, RoleViewModel, TaskStatus,
    TaskStatusModel,
};
use crate::tasks::{ExecutionLease, MembershipLease, TaskModel, TaskSpec};
use crate::topology::LinkProfile;

verus! {

/// The version of these messages.
pub const API_VERSION: u32 = 4;

#[derive(Clone, Debug)]
pub struct RegisterResourceRequest {
    pub descriptor: ResourceDescriptor,
    pub data_endpoint: String,
}

#[derive(Clone, Copy, Debug, PartialEq, Eq, Structural)]
pub struct RegisterResourceResponse {
    pub lease: MembershipLease,
}

#[derive(Clone, Copy, Debug, PartialEq, Eq, Structural)]
pub struct HeartbeatRequest {
    pub resource_id: ResourceId,
    pub epoch: u64,
}

#[derive(Clone, Copy, Debug, PartialEq, Eq, Structural)]
pub struct WorkPollRequest {
    pub resource_id: ResourceId,
    pub epoch: u64,
}

/// A place from which the bytes of an object can be fetched.
#[derive(Debug, PartialEq)]
pub struct ObjectReplica {
    pub resource_id: ResourceId,
    pub url: String,
}

pub struct ReplicaModel {
    pub resource_id: ResourceId,
    pub url: Seq<char>,
}

impl View for ObjectReplica {
    type V = ReplicaModel;

    open spec fn view(&self) -> ReplicaModel {
        ReplicaModel { resource_id: self.resource_id, url: self.url@ }
    }
}

impl Clone for ObjectReplica {
    fn clone(&self) -> (r: ObjectReplica)
        ensures
            r@ == self@,
    {
        ObjectReplica { resource_id: self.resource_id, url: self.url.clone() }
    }
}

/// An object together with the places from which it can be fetched.
#[derive(Debug, PartialEq)]
pub struct ResolvedObject {
    pub metadata: ObjectMetadata,
    pub replicas: Vec<ObjectReplica>,
}

#[verifier::ext_equal]
pub struct ResolvedModel {
    pub metadata: ObjectModel,
    pub replicas: Seq<ReplicaModel>,
}

impl View for ResolvedObject {
    type V = ResolvedModel;

    open spec fn view(&self) -> ResolvedModel {
        ResolvedModel {
            metadata: self.metadata@,
            replicas: crate::text::views(self.replicas@),
        }
    }
}

impl Clone for ResolvedObject {
    fn clone(&self) -> (r: ResolvedObject)
        ensures
            r@ == self@,
    {
        let r = ResolvedObject {
            metadata: self.metadata.clone(),
            replicas: self.replicas.clone(),
        };
        assert(r@.replicas =~= self@.replicas);
        r
    }
}

/// A task that is to be run, under the lease that it is to be run under.
#[derive(Debug, PartialEq)]
pub struct WorkAssignment {
    pub lease: ExecutionLease,
    pub task: TaskSpec,
    pub inputs: Vec<ResolvedObject>,
}

#[verifier::ext_equal]
pub struct AssignmentModel {
    pub lease: ExecutionLease,
    pub task: TaskModel,
    pub inputs: Seq<ResolvedModel>,
}

impl View for WorkAssignment {
    type V = AssignmentModel;

    open spec fn view(&self) -> AssignmentModel {
        AssignmentModel {
            lease: self.lease,
            task: self.task@,
            inputs: crate::text::views(self.inputs@),
        }
    }
}

impl Clone for WorkAssignment {
    fn clone(&self) -> (r: WorkAssignment)
        ensures
            r@ == self@,
    {
        let r = WorkAssignment {
            lease: self.lease,
            task: self.task.clone(),
            inputs: self.inputs.clone(),
        };
        assert(r@.inputs =~= self@.inputs);
        r
    }
}

#[derive(Clone, Debug, PartialEq)]
pub struct WorkPollResponse {
    pub assignment: Option<WorkAssignment>,
}

#[derive(Clone, Debug)]
pub struct CompleteExecutionRequest {
    pub lease: ExecutionLease,
    pub outputs: Vec<ObjectMetadata>,
}

#[derive(Clone, Copy, Debug, PartialEq, Eq, Structural)]
pub struct RenewExecutionRequest {
    pub lease: ExecutionLease,
}

#[derive(Clone, Debug)]
pub struct PublishObjectRequest {
    pub object: ObjectMetadata,
}

#[derive(Clone, Copy, Debug, PartialEq, Eq, Structural)]
pub struct RegisterReplicaRequest {
    pub object_id: ObjectId,
    pub resource_id: ResourceId,
}

#[derive(Clone, Debug)]
pub struct SubmitTaskRequest {
    pub task: TaskSpec,
}

#[derive(Clone, Copy, Debug, PartialEq, Eq, Structural)]
pub struct SubmitTaskResponse {
    pub task_id: TaskId,
}

#[derive(Clone, Debug)]
pub struct SubmitCooperativeJobRequest {
    pub job: CooperativeJobSpec,
}

#[derive(Clone, Copy, Debug, PartialEq, Eq, Structural)]
pub struct SubmitCooperativeJobResponse {
    pub job_id: JobId,
}

#[derive(Clone, Debug)]
pub struct PlanLogicalJobRequest {
    pub job: LogicalJobSpec,
}

/// A logical job that was accepted, with the plan for it, if there is one now.
#[derive(Clone, Debug, PartialEq)]
pub struct SubmitLogicalJobResponse {
    pub job_id: JobId,
    pub initial_plan: Option<CooperativePlan>,
}

#[derive(Clone, Debug, PartialEq)]
pub struct CooperativeJobView {
    pub job: JobDefinition,
    pub status: CooperativeJobStatus,
    pub roles: Vec<CooperativeRoleView>,
}

#[verifier::ext_equal]
pub struct JobViewModel {
    pub job: JobModel,
    pub status: JobStatusModel,
    pub roles: Seq<RoleViewModel>,
}

impl View for CooperativeJobView {
    type V = JobViewModel;

    open spec fn view(&self) -> JobViewModel {
        JobViewModel {
            job: self.job@,
            status: self.status@,
            roles: crate::text::views(self.roles@),
        }
    }
}

#[derive(Clone, Debug, PartialEq)]
pub struct TaskView {
    pub task: TaskSpec,
    pub status: TaskStatus,
}

pub struct TaskViewModel {
    pub task: TaskModel,
    pub status: TaskStatusModel,
}

impl View for TaskView {
    type V = TaskViewModel;

    open spec fn view(&self) -> TaskViewModel {
        TaskViewModel { task: self.task@, status: self.status@ }
    }
}

#[derive(Debug, PartialEq)]
pub struct ResourceView {
    pub descriptor: ResourceDescriptor,
    pub data_endpoint: Option<String>,
}

pub struct ResourceViewModel {
    pub descriptor: ResourceModel,
    pub data_endpoint: Option<Seq<char>>,
}

impl View for ResourceView {
    type V = ResourceViewModel;

    open spec fn view(&self) -> ResourceViewModel {
        ResourceViewModel {
            descriptor: self.descriptor@,
            data_endpoint: crate::text::view_of(self.data_endpoint),
        }
    }
}

impl Clone for ResourceView {
    fn clone(&self) -> (r: ResourceView)
        ensures
            r@ == self@,
    {
        ResourceView {
            descriptor: self.descriptor.clone(),
            data_endpoint: match &self.data_endpoint {
                Some(endpoint) => Some(endpoint.clone()),
                None => None,
            },
        }
    }
}

#[derive(Clone, Debug, PartialEq)]
pub struct ResourceListResponse {
    pub resources: Vec<ResourceView>,
}

#[derive(Clone, Copy, Debug, PartialEq)]
pub struct LinkUpdateRequest {
    pub link: LinkProfile,
}

/// What an agent found of the way to another.
#[derive(Clone, Copy, Debug, PartialEq)]
pub enum LinkMeasurement {
    Reachable { rtt_ms: Binary64, bandwidth_mbps: Binary64 },
    Unreachable,
}

#[derive(Clone, Copy, Debug, PartialEq)]
pub struct ReportLinkMeasurementRequest {
    pub reporter_resource_id: ResourceId,
    pub reporter_epoch: u64,
    pub peer_resource_id: ResourceId,
    pub measurement: LinkMeasurement,
}

#[derive(Clone, Debug)]
pub struct PutObjectResponse {
    pub object: ObjectMetadata,
}

#[derive(Clone, Debug, PartialEq, Eq)]
pub struct ErrorResponse {
    pub error: String,
}

}

//! The states of tasks, roles and jobs, and why a request to the fabric is refused.

use vstd::prelude::*;
use vstd::string::*;

use crate::binary64::Binary64;
use crate::ids::{JobId, ObjectId, ResourceId, TaskId};
use crate::scheduler::ScheduleError;
use crate::tasks::{ExecutionLease, TaskShardPartition};
use crate::text::{concat2, concat3};

verus! {

#[derive(Debug, PartialEq)]
pub enum TaskStatus {
    Pending,
    Running(ExecutionLease),
    Completed(Vec<ObjectId>),
    /// A task that must not be replayed lost its execution lease; somebody has to reconcile it.
    Uncertain,
}

pub enum TaskStatusModel {
    Pending,
    Running(ExecutionLease),
    Completed(Seq<ObjectId>),
    Uncertain,
}

impl View for TaskStatus {
    type V = TaskStatusModel;

    open spec fn view(&self) -> TaskStatusModel {
        match self {
            TaskStatus::Pending => TaskStatusModel::Pending,
            TaskStatus::Running(lease) => TaskStatusModel::Running(*lease),
            TaskStatus::Completed(outputs) => TaskStatusModel::Completed(outputs@),
            TaskStatus::Uncertain => TaskStatusModel::Uncertain,
        }
    }
}

impl Clone for TaskStatus {
    fn clone(&self) -> (r: TaskStatus)
        ensures
            r@ == self@,
    {
        match self {
            TaskStatus::Pending => TaskStatus::Pending,
            TaskStatus::Running(lease) => TaskStatus::Running(*lease),
            TaskStatus::Completed(outputs) => TaskStatus::Completed(outputs.clone()),
            TaskStatus::Uncertain => TaskStatus::Uncertain,
        }
    }
}

impl TaskStatus {
    pub fn is_pending(&self) -> (r: bool)
        ensures
            r == (self@ is Pending),
    {
        match self {
            TaskStatus::Pending => true,
            _ => false,
        }
    }
}

/// One of the tasks of a sharded role, and what it has put out.
#[derive(Debug, PartialEq)]
pub struct ShardStatus {
    pub task_id: TaskId,
    pub outputs: Option<Vec<ObjectId>>,
}

pub struct ShardStatusModel {
    pub task_id: TaskId,
    pub outputs: Option<Seq<ObjectId>>,
}

impl View for ShardStatus {
    type V = ShardStatusModel;

    open spec fn view(&self) -> ShardStatusModel {
        ShardStatusModel { task_id: self.task_id, outputs: crate::text::view_of(self.outputs) }
    }
}

impl Clone for ShardStatus {
    fn clone(&self) -> (r: ShardStatus)
        ensures
            r@ == self@,
    {
        ShardStatus {
            task_id: self.task_id,
            outputs: match &self.outputs {
                Some(outputs) => Some(outputs.clone()),
                None => None,
            },
        }
    }
}

/// One of the groups of a level of a reduction, and what has come of it.
#[derive(Debug, PartialEq)]
pub struct ReductionStatus {
    pub inputs: Vec<ObjectId>,
    /// The reducer; an object that stands alone needs none.
    pub task_id: Option<TaskId>,
    pub outputs: Option<Vec<ObjectId>>,
}

#[verifier::ext_equal]
pub struct ReductionStatusModel {
    pub inputs: Seq<ObjectId>,
    pub task_id: Option<TaskId>,
    pub outputs: Option<Seq<ObjectId>>,
}

impl View for ReductionStatus {
    type V = ReductionStatusModel;

    open spec fn view(&self) -> ReductionStatusModel {
        ReductionStatusModel {
            inputs: self.inputs@,
            task_id: self.task_id,
            outputs: crate::text::view_of(self.outputs),
        }
    }
}

impl Clone for ReductionStatus {
    fn clone(&self) -> (r: ReductionStatus)
        ensures
            r@ == self@,
    {
        ReductionStatus {
            inputs: self.inputs.clone(),
            task_id: self.task_id,
            outputs: match &self.outputs {
                Some(outputs) => Some(outputs.clone()),
                None => None,
            },
        }
    }
}

#[derive(Debug, PartialEq)]
pub enum CooperativeRoleStatus {
    Waiting,
    /// Dependencies are complete, but no implementation is currently feasible.
    Ready,
    Submitted(TaskId),
    /// The tasks of a sharded role, in the order of their indexes.
    Sharded(Vec<ShardStatus>),
    /// What is left of the contributions, in order, is to be reduced further.
    Reducible(Vec<ObjectId>),
    /// The groups of a level of a reduction, in order.
    Reducing(Vec<ReductionStatus>),
    Completed(Vec<ObjectId>),
    Uncertain,
}

#[verifier::ext_equal]
pub enum RoleStatusModel {
    Waiting,
    Ready,
    Submitted(TaskId),
    Sharded(Seq<ShardStatusModel>),
    Reducible(Seq<ObjectId>),
    Reducing(Seq<ReductionStatusModel>),
    Completed(Seq<ObjectId>),
    Uncertain,
}

impl View for CooperativeRoleStatus {
    type V = RoleStatusModel;

    open spec fn view(&self) -> RoleStatusModel {
        match self {
            CooperativeRoleStatus::Waiting => RoleStatusModel::Waiting,
            CooperativeRoleStatus::Ready => RoleStatusModel::Ready,
            CooperativeRoleStatus::Submitted(task) => RoleStatusModel::Submitted(*task),
            CooperativeRoleStatus::Sharded(shards) => RoleStatusModel::Sharded(
                crate::text::views(shards@),
            ),
            CooperativeRoleStatus::Reducible(objects) => RoleStatusModel::Reducible(objects@),
            CooperativeRoleStatus::Reducing(groups) => RoleStatusModel::Reducing(
                crate::text::views(groups@),
            ),
            CooperativeRoleStatus::Completed(outputs) => RoleStatusModel::Completed(outputs@),
            CooperativeRoleStatus::Uncertain => RoleStatusModel::Uncertain,
        }
    }
}

impl Clone for CooperativeRoleStatus {
    fn clone(&self) -> (r: CooperativeRoleStatus)
        ensures
            r@ == self@,
    {
        match self {
            CooperativeRoleStatus::Waiting => CooperativeRoleStatus::Waiting,
            CooperativeRoleStatus::Ready => CooperativeRoleStatus::Ready,
            CooperativeRoleStatus::Submitted(task) => CooperativeRoleStatus::Submitted(*task),
            CooperativeRoleStatus::Sharded(shards) => {
                let copy = shards.clone();
                assert(crate::text::views(copy@) =~= crate::text::views(shards@));
                CooperativeRoleStatus::Sharded(copy)
            },
            CooperativeRoleStatus::Reducible(objects) => CooperativeRoleStatus::Reducible(
                objects.clone(),
            ),
            CooperativeRoleStatus::Reducing(groups) => {
                let copy = groups.clone();
                assert(crate::text::views(copy@) =~= crate::text::views(groups@));
                CooperativeRoleStatus::Reducing(copy)
            },
            CooperativeRoleStatus::Completed(outputs) => CooperativeRoleStatus::Completed(
                outputs.clone(),
            ),
            CooperativeRoleStatus::Uncertain => CooperativeRoleStatus::Uncertain,
        }
    }
}

#[derive(Debug, PartialEq)]
pub enum CooperativeJobStatus {
    Running,
    Completed(Vec<ObjectId>),
    Uncertain,
}

pub enum JobStatusModel {
    Running,
    Completed(Seq<ObjectId>),
    Uncertain,
}

impl View for CooperativeJobStatus {
    type V = JobStatusModel;

    open spec fn view(&self) -> JobStatusModel {
        match self {
            CooperativeJobStatus::Running => JobStatusModel::Running,
            CooperativeJobStatus::Completed(outputs) => JobStatusModel::Completed(outputs@),
            CooperativeJobStatus::Uncertain => JobStatusModel::Uncertain,
        }
    }
}

impl Clone for CooperativeJobStatus {
    fn clone(&self) -> (r: CooperativeJobStatus)
        ensures
            r@ == self@,
    {
        match self {
            CooperativeJobStatus::Running => CooperativeJobStatus::Running,
            CooperativeJobStatus::Completed(outputs) => CooperativeJobStatus::Completed(
                outputs.clone(),
            ),
            CooperativeJobStatus::Uncertain => CooperativeJobStatus::Uncertain,
        }
    }
}

/// Why a role runs as a stage of a fused task.
#[derive(Debug, PartialEq)]
pub struct RoleFusionView {
    pub chain_roles: Vec<String>,
    pub stage_index: usize,
    pub estimated_avoided_transfer_ms: Binary64,
    pub estimated_vs_separate_ms: Binary64,
}

#[verifier::ext_equal]
pub struct RoleFusionModel {
    pub chain_roles: Seq<Seq<char>>,
    pub stage_index: usize,
    pub estimated_avoided_transfer_ms: Binary64,
    pub estimated_vs_separate_ms: Binary64,
}

impl View for RoleFusionView {
    type V = RoleFusionModel;

    open spec fn view(&self) -> RoleFusionModel {
        RoleFusionModel {
            chain_roles: crate::text::views(self.chain_roles@),
            stage_index: self.stage_index,
            estimated_avoided_transfer_ms: self.estimated_avoided_transfer_ms,
            estimated_vs_separate_ms: self.estimated_vs_separate_ms,
        }
    }
}

impl Clone for RoleFusionView {
    fn clone(&self) -> (r: RoleFusionView)
        ensures
            r@ == self@,
    {
        let r = RoleFusionView {
            chain_roles: self.chain_roles.clone(),
            stage_index: self.stage_index,
            estimated_avoided_transfer_ms: self.estimated_avoided_transfer_ms,
            estimated_vs_separate_ms: self.estimated_vs_separate_ms,
        };
        assert(r@.chain_roles =~= self@.chain_roles);
        r
    }
}

/// The choice that was made for one shard of a role.
#[derive(Debug, PartialEq)]
pub struct RoleShardView {
    pub index: u32,
    pub task_id: TaskId,
    pub implementation: String,
    pub planned_resource: ResourceId,
    pub estimated_total_ms: Binary64,
    pub partition: Option<TaskShardPartition>,
}

pub struct RoleShardModel {
    pub index: u32,
    pub task_id: TaskId,
    pub implementation: Seq<char>,
    pub planned_resource: ResourceId,
    pub estimated_total_ms: Binary64,
    pub partition: Option<TaskShardPartition>,
}

impl View for RoleShardView {
    type V = RoleShardModel;

    open spec fn view(&self) -> RoleShardModel {
        RoleShardModel {
            index: self.index,
            task_id: self.task_id,
            implementation: self.implementation@,
            planned_resource: self.planned_resource,
            estimated_total_ms: self.estimated_total_ms,
            partition: self.partition,
        }
    }
}

impl Clone for RoleShardView {
    fn clone(&self) -> (r: RoleShardView)
        ensures
            r@ == self@,
    {
        RoleShardView {
            index: self.index,
            task_id: self.task_id,
            implementation: self.implementation.clone(),
            planned_resource: self.planned_resource,
            estimated_total_ms: self.estimated_total_ms,
            partition: self.partition,
        }
    }
}

/// The choice that was made for a role when it became ready.
#[derive(Debug, PartialEq)]
pub struct RoleSelection {
    pub implementation: String,
    pub planned_resource: ResourceId,
    pub estimated_total_ms: Binary64,
    pub fusion: Option<RoleFusionView>,
}

pub struct RoleSelectionModel {
    pub implementation: Seq<char>,
    pub planned_resource: ResourceId,
    pub estimated_total_ms: Binary64,
    pub fusion: Option<RoleFusionModel>,
}

impl View for RoleSelection {
    type V = RoleSelectionModel;

    open spec fn view(&self) -> RoleSelectionModel {
        RoleSelectionModel {
            implementation: self.implementation@,
            planned_resource: self.planned_resource,
            estimated_total_ms: self.estimated_total_ms,
            fusion: crate::text::view_of(self.fusion),
        }
    }
}

impl Clone for RoleSelection {
    fn clone(&self) -> (r: RoleSelection)
        ensures
            r@ == self@,
    {
        RoleSelection {
            implementation: self.implementation.clone(),
            planned_resource: self.planned_resource,
            estimated_total_ms: self.estimated_total_ms,
            fusion: match &self.fusion {
                Some(fusion) => Some(fusion.clone()),
                None => None,
            },
        }
    }
}

/// A role of a job as it is shown.
#[derive(Debug, PartialEq)]
pub struct CooperativeRoleView {
    pub name: String,
    pub depends_on: Vec<String>,
    pub status: CooperativeRoleStatus,
    pub implementation: Option<String>,
    pub planned_resource: Option<ResourceId>,
    pub estimated_total_ms: Option<Binary64>,
    pub fusion: Option<RoleFusionView>,
    /// The choices for the shards of a sharded role.
    pub shards: Vec<RoleShardView>,
}

#[verifier::ext_equal]
pub struct RoleViewModel {
    pub name: Seq<char>,
    pub depends_on: Seq<Seq<char>>,
    pub status: RoleStatusModel,
    pub implementation: Option<Seq<char>>,
    pub planned_resource: Option<ResourceId>,
    pub estimated_total_ms: Option<Binary64>,
    pub fusion: Option<RoleFusionModel>,
    pub shards: Seq<RoleShardModel>,
}

impl View for CooperativeRoleView {
    type V = RoleViewModel;

    open spec fn view(&self) -> RoleViewModel {
        RoleViewModel {
            name: self.name@,
            depends_on: crate::text::views(self.depends_on@),
            status: self.status@,
            implementation: crate::text::view_of(self.implementation),
            planned_resource: self.planned_resource,
            estimated_total_ms: self.estimated_total_ms,
            fusion: crate::text::view_of(self.fusion),
            shards: crate::text::views(self.shards@),
        }
    }
}

impl Clone for CooperativeRoleView {
    fn clone(&self) -> (r: CooperativeRoleView)
        ensures
            r@ == self@,
    {
        let r = CooperativeRoleView {
            name: self.name.clone(),
            depends_on: self.depends_on.clone(),
            status: self.status.clone(),
            implementation: match &self.implementation {
                Some(implementation) => Some(implementation.clone()),
                None => None,
            },
            planned_resource: self.planned_resource,
            estimated_total_ms: self.estimated_total_ms,
            fusion: match &self.fusion {
                Some(fusion) => Some(fusion.clone()),
                None => None,
            },
            shards: self.shards.clone(),
        };
        assert(r@.depends_on =~= self@.depends_on);
        assert(r@.shards =~= self@.shards);
        r
    }
}

/// Why a request to the fabric is refused.
#[derive(Debug, PartialEq)]
pub enum FabricError {
    ResourceNotActive(ResourceId),
    StaleResourceEpoch(ResourceId),
    UnknownTask(TaskId),
    UnknownObject(ObjectId),
    ObjectConflict(ObjectId),
    DuplicateTask(TaskId),
    InvalidTask(String),
    UnknownJob(JobId),
    DuplicateJob(JobId),
    InvalidCooperativeJob(String),
    InvalidLogicalJob(String),
    TaskNotPending(TaskId),
    StaleExecution,
    ExecutionExpired,
    Scheduling(ScheduleError),
}

pub enum FabricErrorModel {
    ResourceNotActive(ResourceId),
    StaleResourceEpoch(ResourceId),
    UnknownTask(TaskId),
    UnknownObject(ObjectId),
    ObjectConflict(ObjectId),
    DuplicateTask(TaskId),
    InvalidTask(Seq<char>),
    UnknownJob(JobId),
    DuplicateJob(JobId),
    InvalidCooperativeJob(Seq<char>),
    InvalidLogicalJob(Seq<char>),
    TaskNotPending(TaskId),
    StaleExecution,
    ExecutionExpired,
    Scheduling(ScheduleError),
}

impl View for FabricError {
    type V = FabricErrorModel;

    open spec fn view(&self) -> FabricErrorModel {
        match self {
            FabricError::ResourceNotActive(id) => FabricErrorModel::ResourceNotActive(*id),
            FabricError::StaleResourceEpoch(id) => FabricErrorModel::StaleResourceEpoch(*id),
            FabricError::UnknownTask(id) => FabricErrorModel::UnknownTask(*id),
            FabricError::UnknownObject(id) => FabricErrorModel::UnknownObject(*id),
            FabricError::ObjectConflict(id) => FabricErrorModel::ObjectConflict(*id),
            FabricError::DuplicateTask(id) => FabricErrorModel::DuplicateTask(*id),
            FabricError::InvalidTask(message) => FabricErrorModel::InvalidTask(message@),
            FabricError::UnknownJob(id) => FabricErrorModel::UnknownJob(*id),
            FabricError::DuplicateJob(id) => FabricErrorModel::DuplicateJob(*id),
            FabricError::InvalidCooperativeJob(message) => FabricErrorModel::InvalidCooperativeJob(
                message@,
            ),
            FabricError::InvalidLogicalJob(message) => FabricErrorModel::InvalidLogicalJob(message@),
            FabricError::TaskNotPending(id) => FabricErrorModel::TaskNotPending(*id),
            FabricError::StaleExecution => FabricErrorModel::StaleExecution,
            FabricError::ExecutionExpired => FabricErrorModel::ExecutionExpired,
            FabricError::Scheduling(error) => FabricErrorModel::Scheduling(*error),
        }
    }
}

impl FabricErrorModel {
    pub open spec fn description(self) -> Seq<char> {
        match self {
            FabricErrorModel::ResourceNotActive(id) => "resource "@ + crate::ids::hyphenated(id.0)
                + " is not active"@,
            FabricErrorModel::StaleResourceEpoch(id) => "resource "@ + crate::ids::hyphenated(id.0)
                + " epoch does not match current incarnation"@,
            FabricErrorModel::UnknownTask(id) => "task "@ + crate::ids::hyphenated(id.0)
                + " does not exist"@,
            FabricErrorModel::UnknownObject(id) => "object "@ + crate::ids::hyphenated(id.0)
                + " does not exist"@,
            FabricErrorModel::ObjectConflict(id) => "object "@ + crate::ids::hyphenated(id.0)
                + " conflicts with already published metadata"@,
            FabricErrorModel::DuplicateTask(id) => "task "@ + crate::ids::hyphenated(id.0)
                + " already exists"@,
            FabricErrorModel::InvalidTask(message) => "invalid task: "@ + message,
            FabricErrorModel::UnknownJob(id) => "cooperative job "@ + crate::ids::hyphenated(id.0)
                + " does not exist"@,
            FabricErrorModel::DuplicateJob(id) => "cooperative job "@ + crate::ids::hyphenated(id.0)
                + " already exists"@,
            FabricErrorModel::InvalidCooperativeJob(message) => "invalid cooperative job: "@ + message,
            FabricErrorModel::InvalidLogicalJob(message) => "invalid logical job: "@ + message,
            FabricErrorModel::TaskNotPending(id) => "task "@ + crate::ids::hyphenated(id.0)
                + " is not pending"@,
            FabricErrorModel::StaleExecution => "execution lease is stale or does not own the task"@,
            FabricErrorModel::ExecutionExpired => "execution lease has expired"@,
            FabricErrorModel::Scheduling(error) => error.description(),
        }
    }
}

impl FabricError {
    pub fn message(&self) -> (r: String)
        ensures
            r@ == self@.description(),
    {
        match self {
            FabricError::ResourceNotActive(id) => concat3(
                "resource ",
                id.text().as_str(),
                " is not active",
            ),
            FabricError::StaleResourceEpoch(id) => concat3(
                "resource ",
                id.text().as_str(),
                " epoch does not match current incarnation",
            ),
            FabricError::UnknownTask(id) => concat3("task ", id.text().as_str(), " does not exist"),
            FabricError::UnknownObject(id) => concat3(
                "object ",
                id.text().as_str(),
                " does not exist",
            ),
            FabricError::ObjectConflict(id) => concat3(
                "object ",
                id.text().as_str(),
                " conflicts with already published metadata",
            ),
            FabricError::DuplicateTask(id) => concat3("task ", id.text().as_str(), " already exists"),
            FabricError::InvalidTask(message) => concat2("invalid task: ", message.as_str()),
            FabricError::UnknownJob(id) => concat3(
                "cooperative job ",
                id.text().as_str(),
                " does not exist",
            ),
            FabricError::DuplicateJob(id) => concat3(
                "cooperative job ",
                id.text().as_str(),
                " already exists",
            ),
            FabricError::InvalidCooperativeJob(message) => concat2(
                "invalid cooperative job: ",
                message.as_str(),
            ),
            FabricError::InvalidLogicalJob(message) => concat2(
                "invalid logical job: ",
                message.as_str(),
            ),
            FabricError::TaskNotPending(id) => concat3("task ", id.text().as_str(), " is not pending"),
            FabricError::StaleExecution => "execution lease is stale or does not own the task".to_owned(),
            FabricError::ExecutionExpired => "execution lease has expired".to_owned(),
            FabricError::Scheduling(error) => error.message(),
        }
    }
}

}
